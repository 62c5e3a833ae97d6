use gigatoken::simd::table::{VPermTable, VPGatherTable, TbxTable, ScalarGatherTable, vperm_table_lookup};

struct Lcg(u64);

impl Lcg {
    fn next(&mut self) -> u64 {
        self.0 = self.0.wrapping_mul(6364136223846793005).wrapping_add(1442695040888963407);
        self.0 >> 33
    }
}

#[test]
fn test_vpgather_lookup() {
    let mut rng = Lcg(1);
    let table: Vec<u8> = (0..8192).map(|_| rng.next() as u8).collect();
    let indices: Vec<i32> = (0..(1024 * 1024)).map(|_| (rng.next() % 8192) as i32).collect();
    let mut gathered = vec![];
    for chunk in indices.chunks(16) {
        let chunk: [i32; 16] = chunk.try_into().unwrap();
        gathered.extend(table.as_slice().vpgather_lookup(chunk));
    }
    let expected: Vec<u8> = indices.iter().map(|&i| table[i as usize]).collect();
    assert_eq!(gathered, expected);
}

#[test]
fn test_tbx_lookup() {
    let mut rng = Lcg(2);
    let mut table = [0_u8; 128];
    for b in table.iter_mut() {
        *b = rng.next() as u8;
    }
    let indices: Vec<u8> = (0..(1024 * 1024)).map(|_| (rng.next() % 128) as u8).collect();
    let mut gathered = vec![];
    for chunk in indices.chunks(16) {
        let chunk: [u8; 16] = chunk.try_into().unwrap();
        gathered.extend(table.tbx_lookup(chunk));
    }
    let expected: Vec<u8> = indices.iter().map(|&i| table[i as usize]).collect();
    assert_eq!(gathered, expected);
}

#[test]
fn test_scalar_lookup() {
    let mut rng = Lcg(3);
    let table: Vec<u8> = (0..8192).map(|_| rng.next() as u8).collect();
    let indices: Vec<u16> = (0..(1024 * 1024)).map(|_| (rng.next() % 8192) as u16).collect();
    let mut gathered = vec![];
    for chunk in indices.chunks(8) {
        let chunk: [u16; 8] = chunk.try_into().unwrap();
        gathered.extend(table.as_slice().scalar_gather_lookup(chunk));
    }
    let expected: Vec<u8> = indices.iter().map(|&i| table[i as usize]).collect();
    assert_eq!(gathered, expected);
}

#[test]
fn tbx_out_of_range_indices() {
    let table64: [u8; 64] = core::array::from_fn(|i| (i as u8) + 100);
    let mut idx = [0u8; 16];
    idx[0] = 3;
    idx[1] = 64;
    idx[2] = 200;
    let r = table64.tbx_lookup(idx);
    assert_eq!((r[0], r[1], r[2]), (103, 64, 200));
    let table128: [u8; 128] = core::array::from_fn(|i| i as u8);
    let r = table128.tbx_lookup(idx);
    assert_eq!((r[0], r[1], r[2]), (3, 64, 0));
}

#[test]
fn vperm_lookups() {
    let t128: [u8; 128] = core::array::from_fn(|i| (i as u8) ^ 0x55);
    let t256: [u8; 256] = core::array::from_fn(|i| 255 - i as u8);
    let idx: [u8; 64] = core::array::from_fn(|i| (i as u8) * 4);
    let r = vperm_table_lookup(idx, t128);
    for k in 0..64 {
        assert_eq!(r[k], t128[(idx[k] % 128) as usize]);
    }
    let r = t256.vperm_lookup(idx);
    for k in 0..64 {
        assert_eq!(r[k], 255 - idx[k]);
    }
}

#[test]
fn gather_and_two_table_permute() {
    let table: Vec<i32> = (0..100).map(|i| i * 7 - 3).collect();
    let offsets: [i32; 16] = core::array::from_fn(|k| (k as i32 * 6) % 100);
    let r = gigatoken::simd::table::vpgather_table_lookup(&table, offsets);
    for k in 0..16 {
        assert_eq!(r[k], table[offsets[k] as usize]);
    }
    let t1: [u8; 64] = core::array::from_fn(|i| i as u8);
    let t2: [u8; 64] = core::array::from_fn(|i| 200 - i as u8);
    let idx: [u8; 64] = core::array::from_fn(|i| (i as u8).wrapping_mul(5));
    let r = gigatoken::simd::table::vpermi2b_table_lookup(t1, t2, idx);
    assert_eq!(r[1], 5);
    assert_eq!(r[13], 200 - (65 % 64));
    assert_eq!(r[26], 130 % 64);
}
