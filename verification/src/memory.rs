//! The memory that the engine's values live in.
//!
//! All storage is held in one arena that only grows.  An address is a
//! number: the arena's first byte has the address [`BASE_ADDRESS`], the next
//! byte the next address, and the address zero is null.  The arena keeps a
//! record of the heap allocations that have not been released, each with the
//! size and the alignment it was made with.

use crate::error::FfiError;
use vstd::prelude::*;

verus! {

/// Values of at most this many bytes are kept in a small buffer.
pub const SMALL_BUFFER_SIZE: usize = 64;

/// The alignment of a small buffer.
pub const SMALL_BUFFER_ALIGN: usize = 8;

/// The address of the arena's first byte.
pub const BASE_ADDRESS: usize = 4096;

/// A heap allocation: where it starts, and the size and alignment it was
/// made with.
#[derive(Clone, Copy, Debug, PartialEq, Eq, Structural)]
pub struct Block {
    pub address: usize,
    pub size: usize,
    pub align: usize,
}

/// The arena.
pub struct Memory {
    bytes: Vec<u8>,
    extents: Vec<Block>,
    live: Vec<Block>,
}

/// What an arena holds: its bytes, the one at [`BASE_ADDRESS`] first, and
/// the extents of the storage that was made in it, in the order in which
/// it was made.  A small buffer, a heap allocation and a text that was put
/// after the end each have an extent; the bytes that only serve alignment
/// lie in none.
pub struct Arena {
    pub bytes: Seq<u8>,
    pub extents: Seq<Block>,
}

/// The number of bytes from `addr` to the end of the extent that holds it:
/// of the first of them, if there is one.
pub open spec fn span_rest(extents: Seq<Block>, addr: int) -> Option<nat>
    decreases extents.len(),
{
    if extents.len() == 0 {
        None
    } else if extents[0].address <= addr < extents[0].address + extents[0].size {
        Some((extents[0].address + extents[0].size - addr) as nat)
    } else {
        span_rest(extents.drop_first(), addr)
    }
}

/// An arena after `data` is put at `addr`, and how that ends: the extents
/// stay, and nothing changes where the bytes cannot be reached.
pub open spec fn put(arena: Arena, addr: int, data: Seq<u8>) -> (Arena, Result<(), FfiError>) {
    (Arena { bytes: store(arena.bytes, addr, data).0, extents: arena.extents }, store(
        arena.bytes,
        addr,
        data,
    ).1)
}

/// An arena after `data` is put after its end, in an extent of its own.
pub open spec fn appended(arena: Arena, data: Seq<u8>) -> Arena {
    Arena {
        bytes: arena.bytes + data,
        extents: arena.extents.push(
            Block {
                address: arena_end(arena.bytes) as usize,
                size: data.len() as usize,
                align: 1,
            },
        ),
    }
}

/// Whether `n` is a power of two.
pub open spec fn is_power_of_two(n: nat) -> bool
    decreases n,
{
    n == 1 || (n >= 2 && n % 2 == 0 && is_power_of_two(n / 2))
}

/// Whether storage of that size and alignment may be asked for: the
/// alignment is a power of two, and the size, rounded up to it, does not
/// exceed `isize::MAX`.
pub open spec fn valid_layout(size: nat, align: nat) -> bool {
    is_power_of_two(align) && size + align - 1 <= isize::MAX
}

/// `n` bytes that are all zero.
pub open spec fn zeros(n: nat) -> Seq<u8> {
    Seq::new(n, |i: int| 0u8)
}

/// The bytes with `data` put in place of those from `at` on.
pub open spec fn stored(bytes: Seq<u8>, at: int, data: Seq<u8>) -> Seq<u8> {
    Seq::new(
        bytes.len(),
        |i: int|
            if at <= i < at + data.len() {
                data[i - at]
            } else {
                bytes[i]
            },
    )
}

/// The first address after an arena of these bytes.
pub open spec fn arena_end(bytes: Seq<u8>) -> int {
    BASE_ADDRESS + bytes.len()
}

/// Whether the `len` bytes at `addr` are in an arena of these bytes.
pub open spec fn readable(bytes: Seq<u8>, addr: int, len: int) -> bool {
    BASE_ADDRESS <= addr && 0 <= len && addr + len <= arena_end(bytes)
}

/// The `len` bytes at `addr` in an arena of these bytes.
pub open spec fn load(bytes: Seq<u8>, addr: int, len: int) -> Seq<u8> {
    bytes.subrange(addr - BASE_ADDRESS, addr - BASE_ADDRESS + len)
}

/// Why the `len` bytes at `addr` cannot be reached in an arena of these
/// bytes, if they cannot: the address is null, or the bytes are not in the
/// arena.
pub open spec fn fault(bytes: Seq<u8>, addr: int, len: int) -> Option<FfiError> {
    if addr == 0 {
        Some(FfiError::NullPointerAccess)
    } else if !readable(bytes, addr, len) {
        Some(FfiError::InvalidAddress)
    } else {
        None
    }
}

/// An arena of these bytes after `data` is put at `addr`, and how that
/// ends: nothing changes where the bytes cannot be reached.
pub open spec fn store(bytes: Seq<u8>, addr: int, data: Seq<u8>) -> (
    Seq<u8>,
    Result<(), FfiError>,
) {
    match fault(bytes, addr, data.len() as int) {
        Some(e) => (bytes, Err(e)),
        None => (stored(bytes, addr - BASE_ADDRESS, data), Ok(())),
    }
}

/// Whether the recorded allocations are in order in an arena that ends at
/// `end`: each lies in the arena at a multiple of its alignment, and each
/// ends before the next one starts, so that no two overlap.
pub open spec fn in_order(blocks: Seq<Block>, end: int) -> bool {
    &&& forall|i: int|
        0 <= i < blocks.len() ==> {
            &&& BASE_ADDRESS <= (#[trigger] blocks[i]).address
            &&& blocks[i].address + blocks[i].size <= end
            &&& blocks[i].align > 0
            &&& blocks[i].address % blocks[i].align == 0
        }
    &&& forall|i: int, j: int|
        0 <= i < j < blocks.len() ==> (#[trigger] blocks[i]).address + blocks[i].size <= (
        #[trigger] blocks[j]).address
}

/// Whether a zero byte stands among the `limit` bytes at `addr`, as far as
/// they are in an arena of these bytes.
pub open spec fn terminated(bytes: Seq<u8>, addr: int, limit: nat) -> bool {
    exists|n: int|
        0 <= n < limit && readable(bytes, addr, n + 1) && #[trigger] load(bytes, addr, n + 1)[n]
            == 0
}

/// The number of bytes from `addr` up to the first zero byte among the
/// `limit` bytes there, or up to the last of them, or up to the end of the
/// arena, where none stands before.
pub open spec fn text_length(bytes: Seq<u8>, addr: int, limit: nat) -> nat
    decreases limit,
{
    if limit == 0 || !readable(bytes, addr, 1) || load(bytes, addr, 1)[0] == 0 {
        0
    } else {
        1 + text_length(bytes, addr + 1, (limit - 1) as nat)
    }
}

/// The text at `addr` among the `limit` bytes there: the bytes up to the
/// first zero byte.
pub open spec fn text_at(bytes: Seq<u8>, addr: int, limit: nat) -> Seq<u8> {
    load(bytes, addr, text_length(bytes, addr, limit) as int)
}

/// The place of the last record of `block` among the records, or -1 where
/// there is none.
pub open spec fn last_index(blocks: Seq<Block>, block: Block) -> int
    decreases blocks.len(),
{
    if blocks.len() == 0 {
        -1
    } else if blocks.last() == block {
        blocks.len() - 1
    } else {
        last_index(blocks.drop_last(), block)
    }
}

/// A place that holds `block` with none after it is the last index.
pub proof fn lemma_last_index(blocks: Seq<Block>, block: Block, i: int)
    requires
        0 <= i < blocks.len(),
        blocks[i] == block,
        forall|j: int| i < j < blocks.len() ==> blocks[j] != block,
    ensures
        last_index(blocks, block) == i,
    decreases blocks.len(),
{
    if i < blocks.len() - 1 {
        lemma_last_index(blocks.drop_last(), block, i);
    }
}

/// The first place at or after `n` that is a multiple of `align`.
pub open spec fn align_up(n: nat, align: nat) -> nat {
    crate::ctype::round_up(n, align)
}

/// Whether `n` is a power of two.
pub fn power_of_two(n: usize) -> (b: bool)
    ensures
        b == is_power_of_two(n as nat),
{
    if n == 0 {
        return false;
    }
    let mut m: usize = n;
    while m % 2 == 0
        invariant
            m > 0,
            is_power_of_two(m as nat) == is_power_of_two(n as nat),
        decreases m,
    {
        m = m / 2;
    }
    m == 1
}

impl Memory {
    /// The bytes of the arena, the one at [`BASE_ADDRESS`] first.
    pub closed spec fn view(&self) -> Seq<u8> {
        self.bytes@
    }

    /// The heap allocations that have not been released.
    pub closed spec fn live(&self) -> Seq<Block> {
        self.live@
    }

    /// The extents of the storage that was made in the arena.
    pub closed spec fn extents(&self) -> Seq<Block> {
        self.extents@
    }

    /// What the arena holds: its bytes and its extents.
    pub open spec fn arena(&self) -> Arena {
        Arena { bytes: self@, extents: self.extents() }
    }

    /// The first address after the arena.
    pub open spec fn end(&self) -> int {
        arena_end(self@)
    }

    /// Whether the `len` bytes at `addr` are in the arena.
    pub open spec fn readable(&self, addr: int, len: int) -> bool {
        readable(self@, addr, len)
    }

    /// The `len` bytes at `addr`.
    pub open spec fn load(&self, addr: int, len: int) -> Seq<u8> {
        load(self@, addr, len)
    }

    /// Why the `len` bytes at `addr` cannot be reached, if they cannot.
    pub open spec fn fault(&self, addr: int, len: int) -> Option<FfiError> {
        fault(self@, addr, len)
    }

    /// Whether the live allocations are in order: each lies in the arena
    /// at a multiple of its alignment, and no two overlap.  An arena is
    /// made so, and every operation on it keeps it so.
    pub open spec fn well_formed(&self) -> bool {
        in_order(self.live(), self.end())
    }

    /// Whether a heap allocation that starts at `addr` has not been released.
    pub open spec fn is_live(&self, addr: int) -> bool {
        exists|i: int| 0 <= i < self.live().len() && (#[trigger] self.live()[i]).address == addr
    }

    /// An empty arena.
    pub fn new() -> (m: Memory)
        ensures
            m@.len() == 0,
            m.extents().len() == 0,
            m.live().len() == 0,
            m.well_formed(),
    {
        Memory { bytes: Vec::new(), extents: Vec::new(), live: Vec::new() }
    }

    /// The number of bytes in the arena.
    pub fn len(&self) -> (n: usize)
        ensures
            n == self@.len(),
    {
        self.bytes.len()
    }

    /// The address at which storage of that alignment would be placed next,
    /// if `size` bytes fit there.
    fn place(&self, size: usize, align: usize) -> (r: Option<usize>)
        requires
            align > 0,
        ensures
            r is Some <==> align_up(self.end() as nat, align as nat) + size <= isize::MAX,
            r matches Some(a) ==> a == align_up(self.end() as nat, align as nat),
    {
        proof {
            crate::ctype::lemma_round_up(self.end() as nat, align as nat);
        }
        let limit: usize = isize::MAX as usize;
        if self.bytes.len() > limit - BASE_ADDRESS {
            return None;
        }
        let end = BASE_ADDRESS + self.bytes.len();
        let rest = end % align;
        let start = if rest == 0 {
            end
        } else {
            if align - rest > limit - end {
                return None;
            }
            end + (align - rest)
        };
        if size > limit - start {
            None
        } else {
            Some(start)
        }
    }

    /// Appends zero bytes until the arena ends at `end`.
    fn grow(&mut self, end: usize)
        requires
            old(self).end() <= end <= isize::MAX,
        ensures
            final(self)@ == old(self)@ + zeros((end - old(self).end()) as nat),
            final(self).live() == old(self).live(),
            final(self).extents() == old(self).extents(),
            old(self).well_formed() ==> final(self).well_formed(),
    {
        let ghost start = self.bytes@;
        let target = end - BASE_ADDRESS;
        while self.bytes.len() < target
            invariant
                start.len() <= self.bytes@.len() <= target,
                target == end - BASE_ADDRESS,
                end <= isize::MAX,
                self.bytes@ == start + zeros((self.bytes@.len() - start.len()) as nat),
                self.live == old(self).live,
                self.extents == old(self).extents,
            decreases target - self.bytes.len(),
        {
            let ghost before = self.bytes@;
            self.bytes.push(0);
            assert(self.bytes@ =~= start + zeros((self.bytes@.len() - start.len()) as nat));
        }
    }

    /// Makes a heap allocation of `size` zero bytes at the first place after
    /// the arena's end that meets `align`, and records it as live.
    ///
    /// Fails where the layout is not valid or the arena would reach beyond
    /// `isize::MAX`; the arena is then unchanged.
    pub fn allocate(&mut self, size: usize, align: usize) -> (r: Result<usize, FfiError>)
        ensures
            r is Ok <==> valid_layout(size as nat, align as nat) && align_up(
                old(self).end() as nat,
                align as nat,
            ) + size <= isize::MAX,
            r matches Ok(addr) ==> {
                &&& addr == align_up(old(self).end() as nat, align as nat)
                &&& addr % align == 0
                &&& addr != 0
                &&& final(self)@ == old(self)@ + zeros((addr + size - old(self).end()) as nat)
                &&& final(self).live() == old(self).live().push(
                    Block { address: addr, size, align },
                )
                &&& final(self).extents() == old(self).extents().push(
                    Block { address: addr, size, align },
                )
            },
            r matches Err(e) ==> e == FfiError::AllocationFailure && final(self)@ == old(self)@
                && final(self).live() == old(self).live() && final(self).extents()
                == old(self).extents(),
            old(self).well_formed() ==> final(self).well_formed(),
    {
        if !power_of_two(align) {
            return Err(FfiError::AllocationFailure);
        }
        let limit: usize = isize::MAX as usize;
        if align - 1 > limit || size > limit - (align - 1) {
            return Err(FfiError::AllocationFailure);
        }
        match self.place(size, align) {
            None => Err(FfiError::AllocationFailure),
            Some(addr) => {
                proof {
                    crate::ctype::lemma_round_up(self.end() as nat, align as nat);
                }
                self.grow(addr + size);
                self.live.push(Block { address: addr, size, align });
                self.extents.push(Block { address: addr, size, align });
                proof {
                    if old(self).well_formed() {
                        let blocks = self.live();
                        assert forall|i: int, j: int| 0 <= i < j < blocks.len() implies (
                        #[trigger] blocks[i]).address + blocks[i].size <= (
                        #[trigger] blocks[j]).address by {
                            if j == blocks.len() - 1 {
                                assert(blocks[i] == old(self).live()[i]);
                            } else {
                                assert(blocks[i] == old(self).live()[i]);
                                assert(blocks[j] == old(self).live()[j]);
                            }
                        }
                        assert forall|i: int| 0 <= i < blocks.len() implies {
                            &&& BASE_ADDRESS <= (#[trigger] blocks[i]).address
                            &&& blocks[i].address + blocks[i].size <= self.end()
                            &&& blocks[i].align > 0
                            &&& blocks[i].address % blocks[i].align == 0
                        } by {
                            if i < blocks.len() - 1 {
                                assert(blocks[i] == old(self).live()[i]);
                            }
                        }
                    }
                }
                Ok(addr)
            },
        }
    }

    /// Sets aside a small buffer: [`SMALL_BUFFER_SIZE`] zero bytes at the
    /// first place after the arena's end that meets [`SMALL_BUFFER_ALIGN`].
    /// The buffer gets an extent, and no record among the live allocations,
    /// for a small buffer is never released.
    ///
    /// Fails where the arena would reach beyond `isize::MAX`; the arena is
    /// then unchanged.
    pub fn reserve_small(&mut self) -> (r: Result<usize, FfiError>)
        ensures
            r is Ok <==> align_up(old(self).end() as nat, SMALL_BUFFER_ALIGN as nat)
                + SMALL_BUFFER_SIZE <= isize::MAX,
            r matches Ok(addr) ==> {
                &&& addr == align_up(old(self).end() as nat, SMALL_BUFFER_ALIGN as nat)
                &&& addr % SMALL_BUFFER_ALIGN == 0
                &&& addr != 0
                &&& final(self)@ == old(self)@ + zeros(
                    (addr + SMALL_BUFFER_SIZE - old(self).end()) as nat,
                )
                &&& final(self).extents() == old(self).extents().push(
                    Block { address: addr, size: SMALL_BUFFER_SIZE, align: SMALL_BUFFER_ALIGN },
                )
            },
            r matches Err(e) ==> e == FfiError::AllocationFailure && final(self)@ == old(self)@
                && final(self).extents() == old(self).extents(),
            final(self).live() == old(self).live(),
            old(self).well_formed() ==> final(self).well_formed(),
    {
        match self.place(SMALL_BUFFER_SIZE, SMALL_BUFFER_ALIGN) {
            None => Err(FfiError::AllocationFailure),
            Some(addr) => {
                proof {
                    crate::ctype::lemma_round_up(self.end() as nat, SMALL_BUFFER_ALIGN as nat);
                }
                self.grow(addr + SMALL_BUFFER_SIZE);
                self.extents.push(
                    Block { address: addr, size: SMALL_BUFFER_SIZE, align: SMALL_BUFFER_ALIGN },
                );
                Ok(addr)
            },
        }
    }

    /// Releases the heap allocation that was made at `addr` with that size
    /// and alignment: its record, the last such one, leaves the live ones.
    /// Returns `false`, and changes nothing, where no such allocation is
    /// live.  In an arena that is well formed an allocation of any bytes
    /// is recorded once, so that it is live no more once it is released,
    /// and cannot be released again.
    pub fn release(&mut self, addr: usize, size: usize, align: usize) -> (released: bool)
        ensures
            final(self)@ == old(self)@,
            final(self).extents() == old(self).extents(),
            released == old(self).live().contains(Block { address: addr, size, align }),
            !released ==> final(self).live() == old(self).live(),
            released ==> final(self).live() == old(self).live().remove(
                last_index(old(self).live(), Block { address: addr, size, align }),
            ),
            old(self).well_formed() ==> final(self).well_formed(),
            old(self).well_formed() && released && size > 0 ==> !final(self).live().contains(
                Block { address: addr, size, align },
            ),
    {
        let wanted = Block { address: addr, size, align };
        let mut i: usize = self.live.len();
        while i > 0
            invariant
                i <= self.live@.len(),
                self.live == old(self).live,
                self.bytes == old(self).bytes,
                self.extents == old(self).extents,
                wanted == (Block { address: addr, size, align }),
                forall|j: int| i <= j < self.live@.len() ==> self.live@[j] != wanted,
            decreases i,
        {
            i -= 1;
            if self.live[i] == wanted {
                proof {
                    lemma_last_index(self.live@, wanted, i as int);
                }
                self.live.remove(i);
                proof {
                    if old(self).well_formed() {
                        let before = old(self).live();
                        let blocks = self.live();
                        assert forall|a: int| 0 <= a < blocks.len() implies {
                            &&& BASE_ADDRESS <= (#[trigger] blocks[a]).address
                            &&& blocks[a].address + blocks[a].size <= self.end()
                            &&& blocks[a].align > 0
                            &&& blocks[a].address % blocks[a].align == 0
                        } by {
                            if a < i {
                                assert(blocks[a] == before[a]);
                            } else {
                                assert(blocks[a] == before[a + 1]);
                            }
                        }
                        assert forall|a: int, b: int| 0 <= a < b < blocks.len() implies (
                        #[trigger] blocks[a]).address + blocks[a].size <= (
                        #[trigger] blocks[b]).address by {
                            let a0 = if a < i {
                                a
                            } else {
                                a + 1
                            };
                            let b0 = if b < i {
                                b
                            } else {
                                b + 1
                            };
                            assert(blocks[a] == before[a0]);
                            assert(blocks[b] == before[b0]);
                        }
                        if size > 0 {
                            assert forall|a: int| 0 <= a < blocks.len() implies blocks[a]
                                != wanted by {
                                if a < i {
                                    assert(blocks[a] == before[a]);
                                    assert(before[a].address + before[a].size <= before[i as
                                        int].address);
                                } else {
                                    assert(blocks[a] == before[a + 1]);
                                }
                            }
                        }
                    }
                }
                return true;
            }
        }
        false
    }

    /// The `len` bytes at `addr`.
    pub fn read(&self, addr: usize, len: usize) -> (r: Result<Vec<u8>, FfiError>)
        ensures
            match self.fault(addr as int, len as int) {
                Some(e) => r == Err::<Vec<u8>, FfiError>(e),
                None => r matches Ok(bytes) && bytes@ == self.load(addr as int, len as int),
            },
    {
        if addr == 0 {
            return Err(FfiError::NullPointerAccess);
        }
        if addr < BASE_ADDRESS {
            return Err(FfiError::InvalidAddress);
        }
        let at = addr - BASE_ADDRESS;
        if at > self.bytes.len() || len > self.bytes.len() - at {
            return Err(FfiError::InvalidAddress);
        }
        let mut out: Vec<u8> = Vec::new();
        let mut k: usize = 0;
        while k < len
            invariant
                k <= len,
                at + len <= self.bytes@.len(),
                at + len <= usize::MAX,
                out@ == self.bytes@.subrange(at as int, at + k),
            decreases len - k,
        {
            out.push(self.bytes[at + k]);
            k += 1;
            assert(out@ =~= self.bytes@.subrange(at as int, at + k));
        }
        Ok(out)
    }

    /// Puts `data` in place of the bytes at `addr`.  Nothing changes where
    /// the bytes cannot be reached.
    pub fn write(&mut self, addr: usize, data: &Vec<u8>) -> (r: Result<(), FfiError>)
        ensures
            final(self).live() == old(self).live(),
            final(self).extents() == old(self).extents(),
            (final(self)@, r) == store(old(self)@, addr as int, data@),
            (final(self).arena(), r) == put(old(self).arena(), addr as int, data@),
            old(self).well_formed() ==> final(self).well_formed(),
    {
        if addr == 0 {
            return Err(FfiError::NullPointerAccess);
        }
        if addr < BASE_ADDRESS {
            return Err(FfiError::InvalidAddress);
        }
        let at = addr - BASE_ADDRESS;
        let len = data.len();
        if at > self.bytes.len() || len > self.bytes.len() - at {
            return Err(FfiError::InvalidAddress);
        }
        let mut k: usize = 0;
        while k < len
            invariant
                k <= len,
                len == data@.len(),
                self.bytes@.len() == old(self).bytes@.len(),
                at + len <= self.bytes@.len(),
                at + len <= usize::MAX,
                self.live == old(self).live,
                self.extents == old(self).extents,
                self.bytes@ == stored(old(self).bytes@, at as int, data@.subrange(0, k as int)),
            decreases len - k,
        {
            self.bytes[at + k] = data[k];
            k += 1;
            assert(self.bytes@ =~= stored(
                old(self).bytes@,
                at as int,
                data@.subrange(0, k as int),
            ));
        }
        assert(data@.subrange(0, len as int) =~= data@);
        Ok(())
    }

    /// Sets each of the `len` bytes at `addr` to `value`.  Nothing changes
    /// where the bytes cannot be reached.
    pub fn fill(&mut self, addr: usize, len: usize, value: u8) -> (r: Result<(), FfiError>)
        ensures
            final(self).live() == old(self).live(),
            final(self).extents() == old(self).extents(),
            (final(self)@, r) == store(
                old(self)@,
                addr as int,
                Seq::new(len as nat, |i: int| value),
            ),
            old(self).well_formed() ==> final(self).well_formed(),
    {
        if addr == 0 {
            return Err(FfiError::NullPointerAccess);
        }
        if addr < BASE_ADDRESS {
            return Err(FfiError::InvalidAddress);
        }
        let at = addr - BASE_ADDRESS;
        if at > self.bytes.len() || len > self.bytes.len() - at {
            return Err(FfiError::InvalidAddress);
        }
        let mut k: usize = 0;
        while k < len
            invariant
                k <= len,
                self.bytes@.len() == old(self).bytes@.len(),
                at + len <= self.bytes@.len(),
                at + len <= usize::MAX,
                self.live == old(self).live,
                self.extents == old(self).extents,
                self.bytes@ == stored(
                    old(self).bytes@,
                    at as int,
                    Seq::new(k as nat, |i: int| value),
                ),
            decreases len - k,
        {
            self.bytes[at + k] = value;
            k += 1;
            assert(self.bytes@ =~= stored(
                old(self).bytes@,
                at as int,
                Seq::new(k as nat, |i: int| value),
            ));
        }
        Ok(())
    }

    /// The number of bytes from `addr` to the end of the extent that holds
    /// it, if one does.
    pub fn extent_rest(&self, addr: usize) -> (r: Option<usize>)
        ensures
            match r {
                Some(n) => span_rest(self.extents(), addr as int) == Some(n as nat) && n > 0,
                None => span_rest(self.extents(), addr as int) is None,
            },
    {
        assert(self.extents@.subrange(0, self.extents@.len() as int) =~= self.extents@);
        let mut i: usize = 0;
        while i < self.extents.len()
            invariant
                i <= self.extents@.len(),
                span_rest(self.extents@, addr as int) == span_rest(
                    self.extents@.subrange(i as int, self.extents@.len() as int),
                    addr as int,
                ),
            decreases self.extents.len() - i,
        {
            let ghost rest = self.extents@.subrange(i as int, self.extents@.len() as int);
            assert(rest[0] == self.extents@[i as int]);
            assert(rest.drop_first() =~= self.extents@.subrange(
                i + 1,
                self.extents@.len() as int,
            ));
            let block = self.extents[i];
            if block.address <= addr && addr - block.address < block.size {
                return Some(block.size - (addr - block.address));
            }
            i += 1;
        }
        None
    }

    /// The number of bytes from `addr` up to, and without, the first zero
    /// byte among the `limit` bytes there.  No byte after these is looked
    /// at.
    ///
    /// Fails where the address is null, where it is not in the arena, and
    /// where no zero byte stands among those bytes.
    pub fn text_len(&self, addr: usize, limit: usize) -> (r: Result<usize, FfiError>)
        ensures
            r == (match fault(self@, addr as int, 0) {
                Some(e) => Err::<usize, FfiError>(e),
                None => if terminated(self@, addr as int, limit as nat) {
                    Ok(text_length(self@, addr as int, limit as nat) as usize)
                } else {
                    Err(FfiError::UnterminatedString)
                },
            }),
            r matches Ok(n) ==> n == text_length(self@, addr as int, limit as nat) && n < limit
                && readable(self@, addr as int, n + 1),
    {
        if addr == 0 {
            return Err(FfiError::NullPointerAccess);
        }
        if addr < BASE_ADDRESS || addr - BASE_ADDRESS > self.bytes.len() {
            return Err(FfiError::InvalidAddress);
        }
        let at = addr - BASE_ADDRESS;
        let mut n: usize = 0;
        while n < limit && at + n < self.bytes.len()
            invariant
                n <= limit,
                at + n <= self.bytes@.len(),
                at + n <= usize::MAX,
                at == addr - BASE_ADDRESS,
                forall|i: int| at <= i < at + n ==> self.bytes@[i] != 0,
                text_length(self@, addr as int, limit as nat) == n + text_length(
                    self@,
                    addr + n,
                    (limit - n) as nat,
                ),
            decreases self.bytes.len() - at - n,
        {
            if self.bytes[at + n] == 0 {
                assert(load(self@, addr + n, 1)[0] == self.bytes@[at + n]);
                assert(load(self@, addr as int, n + 1)[n as int] == 0);
                return Ok(n);
            }
            assert(load(self@, addr + n, 1)[0] == self.bytes@[at + n]);
            n += 1;
        }
        assert(!terminated(self@, addr as int, limit as nat)) by {
            if terminated(self@, addr as int, limit as nat) {
                let m = choose|m: int|
                    0 <= m < limit && readable(self@, addr as int, m + 1) && #[trigger] load(
                        self@,
                        addr as int,
                        m + 1,
                    )[m] == 0;
                assert(load(self@, addr as int, m + 1)[m] == self.bytes@[at + m]);
            }
        }
        Err(FfiError::UnterminatedString)
    }

    /// Puts `data` after the arena's end, in an extent of its own, and gives
    /// the address of its first byte.  Nothing is recorded among the live
    /// allocations, for what is put there is never released.
    ///
    /// Fails where the arena would reach beyond `isize::MAX`; the arena is
    /// then unchanged.
    pub fn append(&mut self, data: &Vec<u8>) -> (r: Result<usize, FfiError>)
        ensures
            final(self).live() == old(self).live(),
            r is Ok <==> old(self).end() + data@.len() <= isize::MAX,
            r matches Ok(addr) ==> addr == old(self).end() && final(self).arena() == appended(
                old(self).arena(),
                data@,
            ),
            r matches Err(e) ==> e == FfiError::AllocationFailure && final(self).arena()
                == old(self).arena(),
            old(self).well_formed() ==> final(self).well_formed(),
    {
        let limit: usize = isize::MAX as usize;
        if self.bytes.len() > limit - BASE_ADDRESS || data.len() > limit - BASE_ADDRESS
            - self.bytes.len() {
            return Err(FfiError::AllocationFailure);
        }
        let addr = BASE_ADDRESS + self.bytes.len();
        let mut k: usize = 0;
        while k < data.len()
            invariant
                k <= data@.len(),
                self.live == old(self).live,
                self.extents == old(self).extents,
                self.bytes@ == old(self).bytes@ + data@.subrange(0, k as int),
            decreases data.len() - k,
        {
            self.bytes.push(data[k]);
            k += 1;
            assert(self.bytes@ =~= old(self).bytes@ + data@.subrange(0, k as int));
        }
        assert(data@.subrange(0, data@.len() as int) =~= data@);
        self.extents.push(Block { address: addr, size: data.len(), align: 1 });
        Ok(addr)
    }
}

} // verus!
