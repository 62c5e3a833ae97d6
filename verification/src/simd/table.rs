//! Small-table lookups of a vector of indices at once, with the semantics of
//! the SIMD permute, table-extension and gather instructions they stand for.
use vstd::prelude::*;

verus! {

broadcast use vstd::array::group_array_axioms;

/// Lookup of 64 byte indices in a 128- or 256-byte table (`vpermi2b`).
pub trait VPermTable: Sized {
    /// The byte that index `i` selects.
    spec fn vperm_spec(self, i: u8) -> u8;

    fn vperm_lookup(self, indices: [u8; 64]) -> (r: [u8; 64])
        ensures
            forall|k: int| 0 <= k < 64 ==> #[trigger] r@[k] == self.vperm_spec(indices@[k]),
    ;
}

impl VPermTable for [u8; 128] {
    /// The low 7 bits of the index select the byte.
    open spec fn vperm_spec(self, i: u8) -> u8 {
        self@[(i % 128) as int]
    }

    fn vperm_lookup(self, indices: [u8; 64]) -> (r: [u8; 64]) {
        let mut r = [0u8; 64];
        let mut k: usize = 0;
        while k < 64
            invariant
                k <= 64,
                forall|j: int| 0 <= j < k ==> #[trigger] r@[j] == self.vperm_spec(indices@[j]),
            decreases 64 - k,
        {
            r[k] = self[(indices[k] % 128) as usize];
            k += 1;
        }
        r
    }
}

impl VPermTable for [u8; 256] {
    /// The whole index selects the byte (the top bit picks the half).
    open spec fn vperm_spec(self, i: u8) -> u8 {
        self@[i as int]
    }

    fn vperm_lookup(self, indices: [u8; 64]) -> (r: [u8; 64]) {
        let mut r = [0u8; 64];
        let mut k: usize = 0;
        while k < 64
            invariant
                k <= 64,
                forall|j: int| 0 <= j < k ==> #[trigger] r@[j] == self.vperm_spec(indices@[j]),
            decreases 64 - k,
        {
            r[k] = self[indices[k] as usize];
            k += 1;
        }
        r
    }
}

/// Looks up `indices` in `table`.
pub fn vperm_table_lookup<T: VPermTable>(indices: [u8; 64], table: T) -> (r: [u8; 64])
    ensures
        forall|k: int| 0 <= k < 64 ==> #[trigger] r@[k] == table.vperm_spec(indices@[k]),
{
    table.vperm_lookup(indices)
}

/// Gather of 16 bytes at 32-bit offsets (`vpgatherdd`, then narrowing).
pub trait VPGatherTable: Sized {
    /// Whether index `i` may be gathered.
    spec fn gather_ok(self, i: i32) -> bool;

    /// The byte at index `i`.
    spec fn gather_spec(self, i: i32) -> u8;

    fn vpgather_lookup(self, indices: [i32; 16]) -> (r: [u8; 16])
        requires
            forall|k: int| 0 <= k < 16 ==> self.gather_ok(#[trigger] indices@[k]),
        ensures
            forall|k: int| 0 <= k < 16 ==> #[trigger] r@[k] == self.gather_spec(indices@[k]),
    ;
}

impl<'a> VPGatherTable for &'a [u8] {
    open spec fn gather_ok(self, i: i32) -> bool {
        0 <= i < self@.len()
    }

    open spec fn gather_spec(self, i: i32) -> u8 {
        self@[i as int]
    }

    fn vpgather_lookup(self, indices: [i32; 16]) -> (r: [u8; 16]) {
        let mut r = [0u8; 16];
        let mut k: usize = 0;
        while k < 16
            invariant
                k <= 16,
                forall|j: int| 0 <= j < 16 ==> self.gather_ok(#[trigger] indices@[j]),
                forall|j: int| 0 <= j < k ==> #[trigger] r@[j] == self.gather_spec(indices@[j]),
            decreases 16 - k,
        {
            let i = indices[k];
            assert(self.gather_ok(indices@[k as int]));
            r[k] = self[i as usize];
            k += 1;
        }
        r
    }
}

/// Table extension of 16 byte indices (`tbx`): a 64-byte table keeps an
/// out-of-range index as it is, a 128-byte one gives 0 for it.
pub trait TbxTable: Sized {
    spec fn tbx_spec(self, i: u8) -> u8;

    fn tbx_lookup(self, indices: [u8; 16]) -> (r: [u8; 16])
        ensures
            forall|k: int| 0 <= k < 16 ==> #[trigger] r@[k] == self.tbx_spec(indices@[k]),
    ;
}

impl TbxTable for [u8; 64] {
    open spec fn tbx_spec(self, i: u8) -> u8 {
        if i < 64 {
            self@[i as int]
        } else {
            i
        }
    }

    fn tbx_lookup(self, indices: [u8; 16]) -> (r: [u8; 16]) {
        let mut r = [0u8; 16];
        let mut k: usize = 0;
        while k < 16
            invariant
                k <= 16,
                forall|j: int| 0 <= j < k ==> #[trigger] r@[j] == self.tbx_spec(indices@[j]),
            decreases 16 - k,
        {
            let i = indices[k];
            r[k] = if i < 64 {
                self[i as usize]
            } else {
                i
            };
            k += 1;
        }
        r
    }
}

impl TbxTable for [u8; 128] {
    open spec fn tbx_spec(self, i: u8) -> u8 {
        if i < 128 {
            self@[i as int]
        } else {
            0
        }
    }

    fn tbx_lookup(self, indices: [u8; 16]) -> (r: [u8; 16]) {
        let mut r = [0u8; 16];
        let mut k: usize = 0;
        while k < 16
            invariant
                k <= 16,
                forall|j: int| 0 <= j < k ==> #[trigger] r@[j] == self.tbx_spec(indices@[j]),
            decreases 16 - k,
        {
            let i = indices[k];
            r[k] = if i < 128 {
                self[i as usize]
            } else {
                0
            };
            k += 1;
        }
        r
    }
}

/// Gather of 8 bytes at 16-bit indices with scalar loads.
pub trait ScalarGatherTable: Sized {
    spec fn scalar_ok(self, i: u16) -> bool;

    spec fn scalar_spec(self, i: u16) -> u8;

    fn scalar_gather_lookup(self, indices: [u16; 8]) -> (r: [u8; 8])
        requires
            forall|k: int| 0 <= k < 8 ==> self.scalar_ok(#[trigger] indices@[k]),
        ensures
            forall|k: int| 0 <= k < 8 ==> #[trigger] r@[k] == self.scalar_spec(indices@[k]),
    ;
}

impl<'a> ScalarGatherTable for &'a [u8] {
    open spec fn scalar_ok(self, i: u16) -> bool {
        i < self@.len()
    }

    open spec fn scalar_spec(self, i: u16) -> u8 {
        self@[i as int]
    }

    fn scalar_gather_lookup(self, indices: [u16; 8]) -> (r: [u8; 8]) {
        let mut r = [0u8; 8];
        let mut k: usize = 0;
        while k < 8
            invariant
                k <= 8,
                forall|j: int| 0 <= j < 8 ==> self.scalar_ok(#[trigger] indices@[j]),
                forall|j: int| 0 <= j < k ==> #[trigger] r@[j] == self.scalar_spec(indices@[j]),
            decreases 8 - k,
        {
            let i = indices[k];
            assert(self.scalar_ok(indices@[k as int]));
            r[k] = self[i as usize];
            k += 1;
        }
        r
    }
}

/// Gather of 16 `i32` table entries at the given offsets (`vpgatherdd`
/// with a scale of 4).
pub fn vpgather_table_lookup(table: &[i32], offsets: [i32; 16]) -> (r: [i32; 16])
    requires
        forall|k: int| 0 <= k < 16 ==> 0 <= #[trigger] offsets@[k] < table@.len(),
    ensures
        forall|k: int| 0 <= k < 16 ==> #[trigger] r@[k] == table@[offsets@[k] as int],
{
    let mut r = [0i32; 16];
    let mut k: usize = 0;
    while k < 16
        invariant
            k <= 16,
            forall|j: int| 0 <= j < 16 ==> 0 <= #[trigger] offsets@[j] < table@.len(),
            forall|j: int| 0 <= j < k ==> #[trigger] r@[j] == table@[offsets@[j] as int],
        decreases 16 - k,
    {
        let o = offsets[k];
        assert(0 <= offsets@[k as int] < table@.len());
        r[k] = table[o as usize];
        k += 1;
    }
    r
}

/// The byte that `vpermi2b` selects with index `i` from two 64-byte
/// tables: the low 6 bits pick the byte, bit 6 the table.
pub open spec fn vpermi2b_spec(table1: [u8; 64], table2: [u8; 64], i: u8) -> u8 {
    if (i % 128) < 64 {
        table1@[(i % 64) as int]
    } else {
        table2@[(i % 64) as int]
    }
}

/// Lookup of 64 byte indices in two 64-byte tables (`vpermi2b`).
pub fn vpermi2b_table_lookup(table1: [u8; 64], table2: [u8; 64], indices: [u8; 64]) -> (r: [u8; 64])
    ensures
        forall|k: int| 0 <= k < 64 ==> #[trigger] r@[k] == vpermi2b_spec(table1, table2, indices@[k]),
{
    let mut r = [0u8; 64];
    let mut k: usize = 0;
    while k < 64
        invariant
            k <= 64,
            forall|j: int| 0 <= j < k ==> #[trigger] r@[j] == vpermi2b_spec(table1, table2, indices@[j]),
        decreases 64 - k,
    {
        let i = indices[k];
        r[k] = if i % 128 < 64 {
            table1[(i % 64) as usize]
        } else {
            table2[(i % 64) as usize]
        };
        k += 1;
    }
    r
}

} // verus!
