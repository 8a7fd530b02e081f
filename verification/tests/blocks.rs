use ipld_amt::content_id::Cid;
use ipld_amt::encoding::{self, CodecProtocol, Decoder, DAG_CBOR, IPLD_RAW};
use ipld_amt::error::StoreError;
use ipld_amt::memory::{Memory, SyscallError};
use ipld_amt::network::{tipset_cid, total_fil_circ_supply, SupplyTooLarge, TokenAmount};
use ipld_amt::shared;
use ipld_amt::store::{Blocks, Blockstore, MemoryBlockstore};
use ipld_amt::system_actor::{ActorState, LoadError, State, SYSTEM_ACTOR_ID};

#[test]
fn blocks_are_written_in_dag_cbor_alone() {
    let block = encoding::IpldBlock::serialize(DAG_CBOR, vec![0x01]).unwrap();
    assert_eq!(block, encoding::IpldBlock { codec: DAG_CBOR, data: vec![0x01] });
    assert_eq!(encoding::IpldBlock::serialize_cbor(vec![0x02]).unwrap().codec, 0x71);
    let e = encoding::IpldBlock::serialize(IPLD_RAW, vec![0x01]).unwrap_err();
    assert_eq!(e.description, "unsupported protocol");
    assert_eq!(e.protocol, CodecProtocol::Unsupported);

    assert_eq!(block.deserialize(), Ok(Decoder::DagCbor));
    let raw = encoding::IpldBlock { codec: IPLD_RAW, data: vec![1, 2, 3] };
    assert_eq!(raw.deserialize(), Ok(Decoder::Raw));
    let other = encoding::IpldBlock { codec: 0x51, data: vec![] };
    assert_eq!(other.deserialize().unwrap_err().protocol, CodecProtocol::Unsupported);
    assert_eq!(block.clone(), block);
}

#[test]
fn raw_bytes_make_a_block_unless_empty() {
    assert_eq!(encoding::IpldBlock::from_raw_bytes(vec![]), None);
    assert_eq!(
        encoding::IpldBlock::from_raw_bytes(vec![0x80]),
        Some(encoding::IpldBlock { codec: DAG_CBOR, data: vec![0x80] })
    );
}

#[test]
fn actors_exchange_dag_cbor_alone() {
    let block = shared::IpldBlock::serialize(DAG_CBOR, vec![0x80]).unwrap();
    assert_eq!(block, shared::IpldBlock { codec: DAG_CBOR, data: vec![0x80] });
    assert_eq!(block.deserialize(), Ok(Decoder::DagCbor));
    assert_eq!(shared::IpldBlock::serialize_cbor(vec![]).unwrap().codec, DAG_CBOR);
    let e = shared::IpldBlock::serialize(IPLD_RAW, vec![]).unwrap_err();
    assert_eq!((e.description.as_str(), e.protocol), ("unsupported protocol", CodecProtocol::Cbor));
    let raw = shared::IpldBlock { codec: IPLD_RAW, data: vec![1] };
    assert_eq!(raw.deserialize().unwrap_err().protocol, CodecProtocol::Cbor);
    let response = shared::Response {
        exit_code: shared::ExitCode { value: 0 },
        return_data: Some(block.clone()),
    };
    assert_eq!(response.return_data, Some(block));
}

#[test]
fn supply_is_split_in_two() {
    assert_eq!(total_fil_circ_supply(Some(0)), Ok(TokenAmount { lo: 0, hi: 0 }));
    assert_eq!(total_fil_circ_supply(Some(u64::MAX as u128)), Ok(TokenAmount { lo: u64::MAX, hi: 0 }));
    assert_eq!(total_fil_circ_supply(Some(1u128 << 64)), Ok(TokenAmount { lo: 0, hi: 1 }));
    assert_eq!(
        total_fil_circ_supply(Some(u128::MAX)),
        Ok(TokenAmount { lo: u64::MAX, hi: u64::MAX })
    );
    assert_eq!(
        total_fil_circ_supply(Some((7u128 << 64) + 9)),
        Ok(TokenAmount { lo: 9, hi: 7 })
    );
    assert_eq!(total_fil_circ_supply(None), Err(SupplyTooLarge));
}

#[test]
fn tipset_cid_checks_the_buffer_first() {
    let k = Cid::of_block(b"tipset");
    let n = k.to_bytes().len() as u32;
    let mut bytes = vec![0u8; 64];
    let mut mem = Memory::new(&mut bytes);

    let mut asked = 0;
    let r = tipset_cid(
        &mut mem,
        |_| {
            asked += 1;
            Ok(k.clone())
        },
        5,
        60,
        10,
    );
    assert_eq!(r, Err(SyscallError::BufferOutOfBounds { offset: 60, len: 10 }));
    assert_eq!(asked, 0);

    assert_eq!(tipset_cid(&mut mem, |_| Ok(k.clone()), 5, 4, 50), Ok(n));
    assert_eq!(mem.read_cid(4), Ok(k.clone()));
    assert_eq!(
        tipset_cid(&mut mem, |_| Ok(k.clone()), 5, 0, 8),
        Err(SyscallError::CidBufferTooSmall)
    );
    assert_eq!(
        tipset_cid(&mut mem, |_| Err(SyscallError::CidParse), 5, 0, 50),
        Err(SyscallError::CidParse)
    );
    assert_eq!(tipset_cid(&mut mem, |epoch| Ok(Cid::of_block(&epoch.to_be_bytes())), 9, 0, 50), Ok(n));
    assert_eq!(mem.read_cid(0), Ok(Cid::of_block(&9i64.to_be_bytes())));
}

struct Broken;

impl Blockstore for Broken {
    fn blocks(&self) -> Blocks {
        unreachable!("only contracts speak of what a store holds")
    }

    fn reliable(&self) -> bool {
        false
    }

    fn get(&self, _: &Cid) -> Result<Option<Vec<u8>>, StoreError> {
        Err(StoreError { message: "no disk".to_string() })
    }

    fn put_keyed(&mut self, _: &Cid, _: &[u8]) -> Result<(), StoreError> {
        Err(StoreError { message: "no disk".to_string() })
    }
}

#[test]
fn system_actor_state_is_one_link() {
    let registry = Cid::of_block(b"registry");
    let state = State { builtin_actors: registry.clone() };
    let bytes = state.encode();
    let expected =
        serde_ipld_dagcbor::to_vec(&(cid::Cid::try_from(registry.to_bytes()).unwrap(),)).unwrap();
    assert_eq!(bytes, expected);
    assert_eq!(State::decode(&bytes), Some(State { builtin_actors: registry.clone() }));
    assert_eq!(State::decode(&bytes[..bytes.len() - 1]), None);
    assert_eq!(State::decode(&[0x80]), None);
    assert_eq!(SYSTEM_ACTOR_ID, 0);

    let key = Cid::of_block(&bytes);
    let actor = || ActorState { code: Cid::of_block(b"code"), state: key.clone(), sequence: 3 };
    let mut store = MemoryBlockstore::new();
    assert_eq!(State::load(Some(actor()), &store), Err(LoadError::StateNotFound));
    assert_eq!(State::load(None, &store), Err(LoadError::ActorNotResolved));
    store.put_keyed(&key, &bytes).unwrap();
    assert_eq!(
        State::load(Some(actor()), &store),
        Ok((State { builtin_actors: registry }, actor()))
    );
    store.put_keyed(&key, &[0x00]).unwrap();
    assert_eq!(State::load(Some(actor()), &store), Err(LoadError::Decode));
    assert_eq!(
        State::load(Some(actor()), &Broken),
        Err(LoadError::Store(StoreError { message: "no disk".to_string() }))
    );
}

#[test]
fn memory_store_keeps_the_last_block_of_a_key() {
    let mut store = MemoryBlockstore::new();
    let a = Cid::of_block(b"a");
    let b = Cid::of_block(b"b");
    assert_eq!(store.get(&a), Ok(None));
    store.put_keyed(&a, b"first").unwrap();
    store.put_keyed(&b, b"other").unwrap();
    store.put_keyed(&a, b"second").unwrap();
    assert_eq!(store.get(&a), Ok(Some(b"second".to_vec())));
    assert_eq!(store.get(&b), Ok(Some(b"other".to_vec())));
    assert_eq!(store.len(), 3);
    let k = ipld_amt::store::put_block(&mut store, b"block").unwrap();
    assert_eq!(k, Cid::of_block(b"block"));
    assert_eq!(store.get(&k), Ok(Some(b"block".to_vec())));
}

#[test]
fn an_identifier_is_version_codec_hash_code_length_and_digest() {
    let k = Cid::of_block(b"").to_bytes();
    assert_eq!(k.len(), 38);
    assert_eq!(&k[..6], &[0x01, 0x71, 0xa0, 0xe4, 0x02, 0x20]);
    let digest: [u8; 32] = [
        0x0e, 0x57, 0x51, 0xc0, 0x26, 0xe5, 0x43, 0xb2, 0xe8, 0xab, 0x2e, 0xb0, 0x60, 0x99, 0xda,
        0xa1, 0xd1, 0xe5, 0xdf, 0x47, 0x77, 0x8f, 0x77, 0x87, 0xfa, 0xab, 0x45, 0xcd, 0xf1, 0x2f,
        0xe3, 0xa8,
    ];
    assert_eq!(&k[6..], &digest);

    let read = cid::Cid::read_bytes(&k[..]).unwrap();
    assert_eq!(read.version(), cid::Version::V1);
    assert_eq!(read.codec(), 0x71);
    assert_eq!(read.hash().code(), 0xb220);
    assert_eq!(read.hash().digest(), &digest);
}
