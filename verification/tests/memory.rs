use ipld_amt::content_id::Cid;
use ipld_amt::memory::{ErrorNumber, Memory, SyscallError};
use itertools::Itertools;

const RAW: u64 = 0x55;
const SHA2_256: u64 = 0x12;
const HASH: &[u8] = b"\x2C\x26\xB4\x6B\x68\xFF\xC6\x8F\xF9\x9B\x45\x3C\x1D\x30\x41\x34\x13\x42\x2D\x70\x64\x83\xBF\xA0\xF9\x8A\x5E\x88\x62\x66\xE7\xAE";

fn expect_illegal_argument<T>(res: Result<T, SyscallError>) {
    match res {
        Ok(_) => panic!("expected syscall to fail"),
        Err(e) => assert_eq!(e.number(), ErrorNumber::IllegalArgument),
    }
}

fn assert_slices(expected: Vec<Vec<u8>>, got: Result<Vec<&mut [u8]>, SyscallError>) {
    let got: Vec<Vec<u8>> = got.unwrap().into_iter().map(|s| s.to_vec()).collect();
    assert_eq!(expected, got);
}

#[test]
fn test_read_cid() {
    let hash = cid::multihash::Multihash::<64>::wrap(SHA2_256, HASH).unwrap();
    let k = cid::Cid::new_v1(RAW, hash);
    let mut k_bytes = k.to_bytes();
    let mem = Memory::new(&mut k_bytes);
    let k2 = mem.read_cid(0).expect("failed to read cid");
    assert_eq!(k.to_bytes(), k2.to_bytes());
}

#[test]
fn test_read_cid_truncated() {
    let hash = cid::multihash::Multihash::<64>::wrap(SHA2_256, HASH).unwrap();
    let k = cid::Cid::new_v1(RAW, hash);
    let mut k_bytes = k.to_bytes();
    let mem = Memory::new(&mut k_bytes[..20]);
    expect_illegal_argument(mem.read_cid(0));
}

#[test]
fn test_read_cid_out_of_bounds() {
    let mem = Memory::new(&mut []);
    expect_illegal_argument(mem.read_cid(200));
}

#[test]
fn test_read_slice_out_of_bounds() {
    let mut mem = Memory::new(&mut []);
    expect_illegal_argument(mem.try_slice(10, 0));
    expect_illegal_argument(mem.try_slice(0, 10));
    expect_illegal_argument(mem.try_slice(1, 1));
    expect_illegal_argument(mem.try_slice(u32::MAX, 0));
    expect_illegal_argument(mem.try_slice_many([(1, 0)]));
    for perm in (0u32..4).permutations(4) {
        match *perm {
            [a, b, c, d] => expect_illegal_argument(mem.try_slice_many([(a, b), (c, d)])),
            _ => panic!("expected a vector of length 4"),
        }
    }

    for perm in [0, u32::MAX].into_iter().permutations(4) {
        match *perm {
            [a, b, c, d] => expect_illegal_argument(mem.try_slice_many([(a, b), (c, d)])),
            _ => panic!("expected a vector of length 4"),
        }
    }
}

#[test]
fn test_read_slice_empty() {
    let mut mem = Memory::new(&mut []);
    assert!(mem.try_slice(0, 0).expect("slice was in bounds").is_empty());
    assert!(mem
        .try_slice_many([])
        .expect("slice was in bounds")
        .is_empty());
    let slices = mem.try_slice_many([(0, 0)]).expect("slice was in bounds");
    assert_eq!(slices.len(), 1);
    assert!(slices[0].is_empty());
    assert!(mem
        .try_slice_many([(0, 0), (0, 0), (0, 0)])
        .expect("slice was in bounds")
        .into_iter()
        .all(|s| s.is_empty()))
}

#[test]
fn test_read_slice_many() {
    let mut vec: Vec<u8> = (1u8..=100).collect();
    let mut mem = Memory::new(&mut vec);
    assert!(mem
        .try_slice_many([])
        .expect("no slices always work")
        .is_empty());
    assert_slices(vec![vec![1], vec![2]], mem.try_slice_many([(0, 1), (1, 1)]));
    assert_slices(
        vec![vec![], vec![3], vec![2], vec![], vec![1]],
        mem.try_slice_many([(0, 0), (2, 1), (1, 1), (5, 0), (0, 1)]),
    );
    // zero-length doesn't count as overlapping.
    assert_slices(vec![vec![1, 2, 3], vec![]], mem.try_slice_many([(0, 3), (1, 0)]));
    // but these do overlap
    expect_illegal_argument(mem.try_slice_many([(0, 3), (1, 1)]));

    // make sure we can index at the end.
    assert_slices(vec![vec![100], vec![]], mem.try_slice_many([(99, 1), (0, 0)]));

    // non-zero-length out-of-bounds
    expect_illegal_argument(mem.try_slice_many([(100, 1), (0, 0)]));

    // zero-length almost out-of-bounds
    assert_slices(vec![vec![], vec![]], mem.try_slice_many([(100, 0), (0, 0)]));

    // zero-length out-of-bounds
    expect_illegal_argument(mem.try_slice_many([(101, 1), (0, 0)]));
}

#[test]
fn check_bounds_sums_without_overflow() {
    let mut bytes = vec![0u8; 8];
    let mem = Memory::new(&mut bytes);
    assert_eq!(mem.check_bounds(0, 8), Ok(()));
    assert_eq!(mem.check_bounds(8, 0), Ok(()));
    assert_eq!(
        mem.check_bounds(5, 4),
        Err(SyscallError::BufferOutOfBounds { offset: 5, len: 4 })
    );
    assert_eq!(
        mem.check_bounds(u32::MAX, u32::MAX),
        Err(SyscallError::BufferOutOfBounds { offset: u32::MAX, len: u32::MAX })
    );
}

#[test]
fn try_slice_mut_writes_through() {
    let mut bytes = vec![1u8, 2, 3, 4, 5];
    {
        let mut mem = Memory::new(&mut bytes);
        let slice = mem.try_slice_mut(1, 3).unwrap();
        assert_eq!(slice.to_vec(), vec![2, 3, 4]);
        slice[0] = 9;
        slice[2] = 7;
        assert_eq!(
            mem.try_slice_mut(3, 3).unwrap_err(),
            SyscallError::BufferOutOfBounds { offset: 3, len: 3 }
        );
    }
    assert_eq!(bytes, vec![1, 9, 3, 7, 5]);
}

#[test]
fn try_slice_many_writes_land_in_place() {
    let mut bytes = vec![0u8; 6];
    {
        let mut mem = Memory::new(&mut bytes);
        let mut slices = mem.try_slice_many([(4, 2), (0, 1), (2, 0)]).unwrap();
        slices[0][0] = 4;
        slices[0][1] = 5;
        slices[1][0] = 1;
        assert!(slices[2].is_empty());
    }
    assert_eq!(bytes, vec![1, 0, 0, 0, 4, 5]);
}

#[test]
fn try_slice_many_names_its_errors() {
    let mut bytes = vec![0u8; 10];
    let mut mem = Memory::new(&mut bytes);
    assert_eq!(
        mem.try_slice_many([(8, 4)]).unwrap_err(),
        SyscallError::BufferOutOfBounds { offset: 8, len: 4 }
    );
    assert_eq!(
        mem.try_slice_many([(0, 2), (8, 4)]).unwrap_err(),
        SyscallError::MemoryOutOfBounds
    );
    assert_eq!(
        mem.try_slice_many([(0, 4), (3, 2)]).unwrap_err(),
        SyscallError::OverlappingRanges
    );
    assert_eq!(
        mem.try_slice_many([(3, 2), (0, 4)]).unwrap_err(),
        SyscallError::OverlappingRanges
    );
    // where more than one range is at fault, the first by start gives the error,
    // and of two with one start the one that stands first
    assert_eq!(
        mem.try_slice_many([(0, 4), (3, 2), (3, 200)]).unwrap_err(),
        SyscallError::OverlappingRanges
    );
    assert_eq!(
        mem.try_slice_many([(0, 4), (3, 200), (3, 2)]).unwrap_err(),
        SyscallError::MemoryOutOfBounds
    );
    assert_eq!(
        mem.try_slice_many([(9, 2), (0, 4), (3, 2)]).unwrap_err(),
        SyscallError::OverlappingRanges
    );
    assert_eq!(
        mem.try_slice_many([(3, 2), (9, 2), (0, 3)]).unwrap_err(),
        SyscallError::MemoryOutOfBounds
    );
}

#[test]
fn write_cid_then_read_cid() {
    let k = Cid::of_block(b"some block");
    let n = k.to_bytes().len();
    let mut bytes = vec![0xffu8; 64];
    let mut mem = Memory::new(&mut bytes);
    assert_eq!(mem.write_cid(&k, 3, 50), Ok(n as u32));
    assert_eq!(mem.read_cid(3), Ok(k.clone()));
    assert_eq!(mem.try_slice(3 + n as u32, 1).unwrap().to_vec(), vec![0xff]);
    assert_eq!(mem.write_cid(&k, 0, 10), Err(SyscallError::CidBufferTooSmall));
    assert_eq!(
        mem.write_cid(&k, 60, 10),
        Err(SyscallError::BufferOutOfBounds { offset: 60, len: 10 })
    );
    assert_eq!(SyscallError::CidBufferTooSmall.number(), ErrorNumber::BufferTooSmall);
    assert_eq!(mem.read_cid(65), Err(SyscallError::CidOutOfBounds { offset: 65 }));
    assert_eq!(mem.read_cid(64), Err(SyscallError::CidParse));
}

#[test]
fn block_cid_is_v1_dag_cbor_blake2b() {
    let k = Cid::of_block(b"");
    let parsed = cid::Cid::try_from(k.to_bytes()).unwrap();
    assert_eq!(parsed.version(), cid::Version::V1);
    assert_eq!(parsed.codec(), 0x71);
    assert_eq!(parsed.hash().code(), 0xb220);
    assert_eq!(parsed.hash().size(), 32);
    // BLAKE2b-256 of the empty string.
    assert_eq!(
        parsed.hash().digest().to_vec(),
        vec![
            0x0e, 0x57, 0x51, 0xc0, 0x26, 0xe5, 0x43, 0xb2, 0xe8, 0xab, 0x2e, 0xb0, 0x60, 0x99,
            0xda, 0xa1, 0xd1, 0xe5, 0xdf, 0x47, 0x77, 0x8f, 0x77, 0x87, 0xfa, 0xab, 0x45, 0xcd,
            0xf1, 0x2f, 0xe3, 0xa8
        ]
    );
    assert!(Cid::of_block(b"a") != Cid::of_block(b"b"));
    assert!(Cid::of_block(b"a").same(&Cid::of_block(b"a")));
}

#[test]
fn read_bytes_ignores_what_follows() {
    let k = Cid::of_block(b"x");
    let mut bytes = k.to_bytes();
    bytes.extend_from_slice(&[1, 2, 3]);
    assert_eq!(Cid::read_bytes(&bytes), Some(k));
    assert_eq!(Cid::read_bytes(&[]), None);
}
