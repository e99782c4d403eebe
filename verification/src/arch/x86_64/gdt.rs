//! Global descriptor table and task state segment.
//!
//! The table has six entries in a fixed order:
//!
//! | index | segment                                  |
//! |-------|------------------------------------------|
//! | 0     | null, as the processor requires          |
//! | 1     | kernel code, ring 0, 64-bit              |
//! | 2     | kernel data, ring 0                      |
//! | 3     | user code, ring 3, 64-bit                |
//! | 4     | user data, ring 3                        |
//! | 5     | task state segment, two slots wide       |

use vstd::prelude::*;

verus! {

/// Selector of the kernel code segment.
pub const KERNEL_CODE: u16 = 0x08;

/// Selector of the kernel data segment.
pub const KERNEL_DATA: u16 = 0x10;

/// Selector of the user code segment, with ring 3 requested.
pub const USER_CODE: u16 = 0x1B;

/// Selector of the user data segment, with ring 3 requested.
pub const USER_DATA: u16 = 0x23;

/// Selector of the task state segment.
pub const TSS_SEL: u16 = 0x28;

/// Size of the task state segment in bytes.
pub const TSS_SIZE: u16 = 104;

/// Size of the descriptor table in bytes: five entries of eight bytes and
/// one of sixteen.
pub const GDT_SIZE: u16 = 56;

/// Size of the kernel's interrupt stack in bytes.
pub const KERNEL_STACK_SIZE: usize = 16 * 1024;

/// Access byte of a present 64-bit task state segment that is available.
pub const TSS_ACCESS: u8 = 0x89;

/// A code or data segment descriptor.
#[derive(Clone, Copy, Debug, PartialEq, Eq, Structural)]
pub struct GdtEntry {
    pub limit_low: u16,
    pub base_low: u16,
    pub base_mid: u8,
    pub access: u8,
    pub granularity: u8,
    pub base_high: u8,
}

impl GdtEntry {
    /// The eight bytes of the descriptor as one little-endian word.
    pub open spec fn spec_encode(&self) -> u64 {
        (self.limit_low + self.base_low * 0x1_0000 + self.base_mid * 0x1_0000_0000 + self.access
            * 0x100_0000_0000 + self.granularity * 0x1_0000_0000_0000 + self.base_high
            * 0x100_0000_0000_0000) as u64
    }

    /// The null descriptor.
    pub open spec fn spec_null() -> GdtEntry {
        GdtEntry {
            limit_low: 0,
            base_low: 0,
            base_mid: 0,
            access: 0,
            granularity: 0,
            base_high: 0,
        }
    }

    /// A flat segment with the given access and granularity bytes: base
    /// zero, the largest limit.
    pub open spec fn spec_new(access: u8, granularity: u8) -> GdtEntry {
        GdtEntry {
            limit_low: 0xFFFF,
            base_low: 0,
            base_mid: 0,
            access,
            granularity,
            base_high: 0,
        }
    }

    /// The null descriptor.
    pub fn null() -> (r: Self)
        ensures
            r == Self::spec_null(),
            r.spec_encode() == 0,
    {
        Self { limit_low: 0, base_low: 0, base_mid: 0, access: 0, granularity: 0, base_high: 0 }
    }

    /// A flat segment with the given access and granularity bytes.
    pub fn new(access: u8, granularity: u8) -> (r: Self)
        ensures
            r == Self::spec_new(access, granularity),
    {
        Self { limit_low: 0xFFFF, base_low: 0, base_mid: 0, access, granularity, base_high: 0 }
    }

    /// The eight bytes of the descriptor as one little-endian word.
    pub fn encode(&self) -> (r: u64)
        ensures
            r == self.spec_encode(),
    {
        let a: u64 = self.limit_low as u64;
        let b: u64 = self.base_low as u64;
        let c: u64 = self.base_mid as u64;
        let d: u64 = self.access as u64;
        let e: u64 = self.granularity as u64;
        let f: u64 = self.base_high as u64;
        assert((a | (b << 16) | (c << 32) | (d << 40) | (e << 48) | (f << 56)) == a + b * 0x1_0000
            + c * 0x1_0000_0000 + d * 0x100_0000_0000 + e * 0x1_0000_0000_0000 + f
            * 0x100_0000_0000_0000) by (bit_vector)
            requires
                a <= 0xFFFF,
                b <= 0xFFFF,
                c <= 0xFF,
                d <= 0xFF,
                e <= 0xFF,
                f <= 0xFF,
        ;
        a | (b << 16) | (c << 32) | (d << 40) | (e << 48) | (f << 56)
    }
}

/// The descriptor of the task state segment, sixteen bytes.
#[derive(Clone, Copy, Debug, PartialEq, Eq, Structural)]
pub struct TssEntry {
    pub limit_low: u16,
    pub base_low: u16,
    pub base_mid: u8,
    pub access: u8,
    pub granularity: u8,
    pub base_high: u8,
    pub base_upper: u32,
    pub reserved: u32,
}

impl TssEntry {
    /// The address that the descriptor's four base fields hold.
    pub open spec fn base(&self) -> int {
        self.base_low + self.base_mid * 0x1_0000 + self.base_high * 0x100_0000 + self.base_upper
            * 0x1_0000_0000
    }

    /// The limit that the descriptor holds: the low sixteen bits and the
    /// four bits in the granularity byte.
    pub open spec fn limit(&self) -> int {
        self.limit_low + (self.granularity % 16) * 0x1_0000
    }

    /// The lower eight bytes as one little-endian word.
    pub open spec fn spec_encode_low(&self) -> u64 {
        (self.limit_low + self.base_low * 0x1_0000 + self.base_mid * 0x1_0000_0000 + self.access
            * 0x100_0000_0000 + self.granularity * 0x1_0000_0000_0000 + self.base_high
            * 0x100_0000_0000_0000) as u64
    }

    /// The upper eight bytes as one little-endian word.
    pub open spec fn spec_encode_high(&self) -> u64 {
        (self.base_upper + self.reserved * 0x1_0000_0000) as u64
    }

    /// The descriptor of the task state segment at `tss_addr`: present,
    /// ring 0, with the segment's last byte as limit and the address cut
    /// into the four base fields.
    pub open spec fn spec_new(tss_addr: u64) -> TssEntry {
        TssEntry {
            limit_low: 103,
            base_low: (tss_addr % 0x1_0000) as u16,
            base_mid: ((tss_addr / 0x1_0000) % 0x100) as u8,
            access: TSS_ACCESS,
            granularity: 0,
            base_high: ((tss_addr / 0x100_0000) % 0x100) as u8,
            base_upper: (tss_addr / 0x1_0000_0000) as u32,
            reserved: 0,
        }
    }

    /// The descriptor of the task state segment at `tss_addr`: present,
    /// ring 0, with the segment's last byte as limit.
    pub fn new(tss_addr: u64) -> (r: Self)
        ensures
            r == Self::spec_new(tss_addr),
            r.base() == tss_addr,
            r.limit() == TSS_SIZE - 1,
    {
        let size: u64 = (TSS_SIZE - 1) as u64;
        let limit_low: u64 = size & 0xFFFF;
        let base_low: u64 = tss_addr & 0xFFFF;
        let base_mid: u64 = (tss_addr >> 16) & 0xFF;
        let granularity: u64 = (size >> 16) & 0x0F;
        let base_high: u64 = (tss_addr >> 24) & 0xFF;
        let base_upper: u64 = tss_addr >> 32;
        assert(limit_low == 103 && granularity == 0 && base_low == tss_addr % 0x1_0000 && base_mid
            == (tss_addr / 0x1_0000) % 0x100 && base_high == (tss_addr / 0x100_0000) % 0x100
            && base_upper == tss_addr / 0x1_0000_0000 && base_upper <= 0xFFFF_FFFF) by (bit_vector)
            requires
                size == 103,
                limit_low == size & 0xFFFF,
                base_low == tss_addr & 0xFFFF,
                base_mid == (tss_addr >> 16) & 0xFF,
                granularity == (size >> 16) & 0x0F,
                base_high == (tss_addr >> 24) & 0xFF,
                base_upper == tss_addr >> 32,
        ;
        Self {
            limit_low: limit_low as u16,
            base_low: base_low as u16,
            base_mid: base_mid as u8,
            access: TSS_ACCESS,
            granularity: granularity as u8,
            base_high: base_high as u8,
            base_upper: base_upper as u32,
            reserved: 0,
        }
    }

    /// The sixteen bytes of the descriptor as two little-endian words, the
    /// lower first.
    pub fn encode(&self) -> (r: (u64, u64))
        ensures
            r.0 == self.spec_encode_low(),
            r.1 == self.spec_encode_high(),
    {
        let a: u64 = self.limit_low as u64;
        let b: u64 = self.base_low as u64;
        let c: u64 = self.base_mid as u64;
        let d: u64 = self.access as u64;
        let e: u64 = self.granularity as u64;
        let f: u64 = self.base_high as u64;
        let g: u64 = self.base_upper as u64;
        let h: u64 = self.reserved as u64;
        assert((a | (b << 16) | (c << 32) | (d << 40) | (e << 48) | (f << 56)) == a + b * 0x1_0000
            + c * 0x1_0000_0000 + d * 0x100_0000_0000 + e * 0x1_0000_0000_0000 + f
            * 0x100_0000_0000_0000 && (g | (h << 32)) == g + h * 0x1_0000_0000) by (bit_vector)
            requires
                a <= 0xFFFF,
                b <= 0xFFFF,
                c <= 0xFF,
                d <= 0xFF,
                e <= 0xFF,
                f <= 0xFF,
                g <= 0xFFFF_FFFF,
                h <= 0xFFFF_FFFF,
        ;
        (a | (b << 16) | (c << 32) | (d << 40) | (e << 48) | (f << 56), g | (h << 32))
    }
}

/// The lower 32 bits of `x`.
pub open spec fn low_half(x: u64) -> u32 {
    (x % 0x1_0000_0000) as u32
}

/// The upper 32 bits of `x`.
pub open spec fn high_half(x: u64) -> u32 {
    (x / 0x1_0000_0000) as u32
}

/// The two halves of `x`, the lower first.
pub fn halves(x: u64) -> (r: (u32, u32))
    ensures
        r.0 == low_half(x),
        r.1 == high_half(x),
{
    let low: u64 = x & 0xFFFF_FFFF;
    let high: u64 = x >> 32;
    assert(low == x % 0x1_0000_0000 && high == x / 0x1_0000_0000 && low <= 0xFFFF_FFFF && high
        <= 0xFFFF_FFFF) by (bit_vector)
        requires
            low == x & 0xFFFF_FFFF,
            high == x >> 32,
    ;
    (low as u32, high as u32)
}

/// The task state segment: the stacks that the processor switches to.
#[derive(Clone, Copy, Debug)]
pub struct Tss {
    pub reserved0: u32,
    /// Stack for entries into ring 0.
    pub rsp0: u64,
    pub rsp1: u64,
    pub rsp2: u64,
    pub reserved1: u64,
    /// The seven interrupt stacks; slot 1 is `ist[0]`.
    pub ist: [u64; 7],
    pub reserved2: u64,
    pub reserved3: u16,
    /// Offset of the I/O permission map; the segment's size says that
    /// there is none.
    pub iomap_base: u16,
}

impl Tss {
    /// The segment as the 26 little-endian words of 32 bits that the
    /// processor reads: a reserved word, the three stacks of the rings, a
    /// reserved pair, the seven interrupt stacks, a reserved pair, and the
    /// word that holds the offset of the I/O permission map in its upper
    /// half.
    pub open spec fn spec_encode(&self) -> Seq<u32> {
        seq![
            self.reserved0,
            low_half(self.rsp0),
            high_half(self.rsp0),
            low_half(self.rsp1),
            high_half(self.rsp1),
            low_half(self.rsp2),
            high_half(self.rsp2),
            low_half(self.reserved1),
            high_half(self.reserved1),
            low_half(self.ist[0]),
            high_half(self.ist[0]),
            low_half(self.ist[1]),
            high_half(self.ist[1]),
            low_half(self.ist[2]),
            high_half(self.ist[2]),
            low_half(self.ist[3]),
            high_half(self.ist[3]),
            low_half(self.ist[4]),
            high_half(self.ist[4]),
            low_half(self.ist[5]),
            high_half(self.ist[5]),
            low_half(self.ist[6]),
            high_half(self.ist[6]),
            low_half(self.reserved2),
            high_half(self.reserved2),
            (self.reserved3 + self.iomap_base * 0x1_0000) as u32,
        ]
    }

    /// The segment as the words that the processor reads.
    pub fn encode(&self) -> (r: Vec<u32>)
        ensures
            r@ == self.spec_encode(),
    {
        let mut words: Vec<u32> = Vec::new();
        words.push(self.reserved0);
        let rsp0 = halves(self.rsp0);
        words.push(rsp0.0);
        words.push(rsp0.1);
        let rsp1 = halves(self.rsp1);
        words.push(rsp1.0);
        words.push(rsp1.1);
        let rsp2 = halves(self.rsp2);
        words.push(rsp2.0);
        words.push(rsp2.1);
        let reserved1 = halves(self.reserved1);
        words.push(reserved1.0);
        words.push(reserved1.1);
        let mut i: usize = 0;
        while i < 7
            invariant
                i <= 7,
                words@.len() == 9 + 2 * i,
                words@.subrange(0, 9) == self.spec_encode().subrange(0, 9),
                forall|k: int|
                    0 <= k < i ==> words@[9 + 2 * k] == low_half(self.ist[k]) && words@[10 + 2 * k]
                        == high_half(self.ist[k]),
            decreases 7 - i,
        {
            let ghost before = words@;
            let stack = halves(self.ist[i]);
            words.push(stack.0);
            words.push(stack.1);
            assert(words@.subrange(0, 9) =~= before.subrange(0, 9));
            i += 1;
        }
        let reserved2 = halves(self.reserved2);
        words.push(reserved2.0);
        words.push(reserved2.1);
        let r3: u32 = self.reserved3 as u32;
        let io: u32 = self.iomap_base as u32;
        assert((r3 | (io << 16)) == r3 + io * 0x1_0000) by (bit_vector)
            requires
                r3 <= 0xFFFF,
                io <= 0xFFFF,
        ;
        words.push(r3 | (io << 16));
        proof {
            let want = self.spec_encode();
            assert(words@.len() == 26);
            assert forall|k: int| 0 <= k < 26 implies words@[k] == want[k] by {
                if k < 9 {
                    assert(words@.subrange(0, 9)[k] == want.subrange(0, 9)[k]);
                } else if k < 23 {
                    let j = (k - 9) / 2;
                    assert(0 <= j < 7);
                    assert(k == 9 + 2 * j || k == 10 + 2 * j);
                }
            }
            assert(words@ =~= want);
        }
        words
    }

    /// A task state segment with no stack set and no I/O permission map.
    pub fn new() -> (r: Self)
        ensures
            r.rsp0 == 0,
            r.rsp1 == 0,
            r.rsp2 == 0,
            r.reserved0 == 0,
            r.reserved1 == 0,
            r.reserved2 == 0,
            r.reserved3 == 0,
            r.iomap_base == TSS_SIZE,
            forall|i: int| 0 <= i < 7 ==> r.ist[i] == 0,
    {
        Self {
            reserved0: 0,
            rsp0: 0,
            rsp1: 0,
            rsp2: 0,
            reserved1: 0,
            ist: [0u64; 7],
            reserved2: 0,
            reserved3: 0,
            iomap_base: TSS_SIZE,
        }
    }
}

/// The descriptor table.
#[derive(Clone, Copy, Debug, PartialEq, Eq, Structural)]
pub struct Gdt {
    pub null: GdtEntry,
    pub kernel_code: GdtEntry,
    pub kernel_data: GdtEntry,
    pub user_code: GdtEntry,
    pub user_data: GdtEntry,
    pub tss: TssEntry,
}

impl Gdt {
    /// The table as the seven little-endian words that the processor reads.
    pub open spec fn spec_encode(&self) -> Seq<u64> {
        seq![
            self.null.spec_encode(),
            self.kernel_code.spec_encode(),
            self.kernel_data.spec_encode(),
            self.user_code.spec_encode(),
            self.user_data.spec_encode(),
            self.tss.spec_encode_low(),
            self.tss.spec_encode_high(),
        ]
    }

    /// The table for a task state segment at `tss_addr`: the null
    /// descriptor, code and data of the kernel, code and data of user
    /// programs, and the descriptor of the task state segment.
    pub open spec fn spec_new(tss_addr: u64) -> Gdt {
        Gdt {
            null: GdtEntry::spec_null(),
            kernel_code: GdtEntry::spec_new(0x9A, 0xA0),
            kernel_data: GdtEntry::spec_new(0x92, 0xC0),
            user_code: GdtEntry::spec_new(0xFA, 0xA0),
            user_data: GdtEntry::spec_new(0xF2, 0xC0),
            tss: TssEntry::spec_new(tss_addr),
        }
    }

    /// The table for a task state segment at `tss_addr`.
    pub fn new(tss_addr: u64) -> (r: Self)
        ensures
            r == Self::spec_new(tss_addr),
    {
        Self {
            null: GdtEntry::null(),
            kernel_code: GdtEntry::new(0x9A, 0xA0),
            kernel_data: GdtEntry::new(0x92, 0xC0),
            user_code: GdtEntry::new(0xFA, 0xA0),
            user_data: GdtEntry::new(0xF2, 0xC0),
            tss: TssEntry::new(tss_addr),
        }
    }

    /// The table as the seven little-endian words that the processor reads.
    pub fn encode(&self) -> (r: Vec<u64>)
        ensures
            r@ == self.spec_encode(),
    {
        let tss = self.tss.encode();
        let mut words: Vec<u64> = Vec::new();
        words.push(self.null.encode());
        words.push(self.kernel_code.encode());
        words.push(self.kernel_data.encode());
        words.push(self.user_code.encode());
        words.push(self.user_data.encode());
        words.push(tss.0);
        words.push(tss.1);
        assert(words@ =~= self.spec_encode());
        words
    }
}

/// What the register of the descriptor table is loaded with: the table's
/// last byte and its address.
#[derive(Clone, Copy, Debug, PartialEq, Eq, Structural)]
pub struct GdtDescriptor {
    pub size: u16,
    pub offset: u64,
}

/// Sets up the task state segment and makes the descriptor table for it.
/// `stack_top` becomes the stack for entries into ring 0, `fault_stack_top`
/// the stack in slot 1 of the interrupt stacks, which the double fault
/// uses. `tss_addr` and `gdt_addr` say where the two structures will lie.
/// What is left to the caller is to store the table and to load the
/// registers: the table register with the descriptor returned, the data
/// segments with `KERNEL_DATA`, the code segment with `KERNEL_CODE`, the
/// task register with `TSS_SEL`.
pub fn init(
    tss: &mut Tss,
    stack_top: u64,
    fault_stack_top: u64,
    tss_addr: u64,
    gdt_addr: u64,
) -> (r: (Gdt, GdtDescriptor))
    ensures
        final(tss).rsp0 == stack_top,
        final(tss).ist@ == old(tss).ist@.update(0, fault_stack_top),
        final(tss).rsp1 == old(tss).rsp1,
        final(tss).rsp2 == old(tss).rsp2,
        final(tss).iomap_base == old(tss).iomap_base,
        final(tss).reserved0 == old(tss).reserved0,
        final(tss).reserved1 == old(tss).reserved1,
        final(tss).reserved2 == old(tss).reserved2,
        final(tss).reserved3 == old(tss).reserved3,
        r.0 == Gdt::spec_new(tss_addr),
        r.1 == (GdtDescriptor { size: 55, offset: gdt_addr }),
{
    tss.rsp0 = stack_top;
    tss.ist[0] = fault_stack_top;
    let gdt = Gdt::new(tss_addr);
    let descriptor = GdtDescriptor { size: GDT_SIZE - 1, offset: gdt_addr };
    (gdt, descriptor)
}

/// Sets the stack for entries into ring 0; the scheduler calls this at
/// every switch of task. Nothing else changes.
pub fn set_kernel_stack(tss: &mut Tss, stack_top: u64)
    ensures
        final(tss).rsp0 == stack_top,
        *final(tss) == (Tss { rsp0: stack_top, ..*old(tss) }),
{
    tss.rsp0 = stack_top;
}

} // verus!
