use chain_clusterizer::block::Block;
use chain_clusterizer::error::ParseError;
use chain_clusterizer::hash::double_sha256;

const MAGIC: [u8; 4] = [0xf9, 0xbe, 0xb4, 0xd9];

fn record(block: &[u8]) -> Vec<u8> {
    let mut out = MAGIC.to_vec();
    out.extend_from_slice(&(block.len() as u32).to_le_bytes());
    out.extend_from_slice(block);
    out
}

fn plain_block(fill: u8, len: usize) -> Vec<u8> {
    let mut block = vec![fill; len];
    block[80..].iter_mut().for_each(|b| *b = 0);
    block
}

fn genesis_header() -> Vec<u8> {
    let mut header = Vec::new();
    header.extend_from_slice(&1u32.to_le_bytes());
    header.extend_from_slice(&[0u8; 32]);
    header.extend_from_slice(&[
        0x3b, 0xa3, 0xed, 0xfd, 0x7a, 0x7b, 0x12, 0xb2, 0x7a, 0xc7, 0x2c, 0x3e, 0x67, 0x76, 0x8f,
        0x61, 0x7f, 0xc8, 0x1b, 0xc3, 0x88, 0x8a, 0x51, 0x32, 0x3a, 0x9f, 0xb8, 0xaa, 0x4b, 0x1e,
        0x5e, 0x4a,
    ]);
    header.extend_from_slice(&1231006505u32.to_le_bytes());
    header.extend_from_slice(&0x1d00ffffu32.to_le_bytes());
    header.extend_from_slice(&2083236893u32.to_le_bytes());
    header
}

#[test]
fn read_of_empty_cursor_is_none() {
    let mut cursor: &[u8] = &[];
    assert_eq!(Block::read(&mut cursor), Ok(None));
}

#[test]
fn read_of_zero_padding_is_none_and_empties_the_cursor() {
    let data = vec![0u8; 512];
    let mut cursor: &[u8] = &data;
    assert_eq!(Block::read(&mut cursor), Ok(None));
    assert!(cursor.is_empty());
}

#[test]
fn read_carves_exactly_the_block() {
    let block = plain_block(7, 100);
    let mut data = record(&block);
    data.extend_from_slice(&[0xaa, 0xbb]);
    let mut cursor: &[u8] = &data;
    let got = Block::read(&mut cursor).unwrap().unwrap();
    assert_eq!(got.as_bytes(), &block[..]);
    assert_eq!(cursor, &[0xaau8, 0xbb][..]);
}

#[test]
fn read_skips_leading_zeros() {
    let block = plain_block(9, 80);
    let mut data = vec![0u8; 13];
    data.extend_from_slice(&record(&block));
    let mut cursor: &[u8] = &data;
    let got = Block::read(&mut cursor).unwrap().unwrap();
    assert_eq!(got.as_bytes(), &block[..]);
    assert!(cursor.is_empty());
}

#[test]
fn read_rejects_unknown_magic() {
    let mut data = vec![0xfau8, 0xbf, 0xb5, 0xda];
    data.extend_from_slice(&80u32.to_le_bytes());
    data.extend_from_slice(&[1u8; 80]);
    let mut cursor: &[u8] = &data;
    assert_eq!(Block::read(&mut cursor), Err(ParseError::Invalid));
}

#[test]
fn read_rejects_length_below_header() {
    let mut data = MAGIC.to_vec();
    data.extend_from_slice(&79u32.to_le_bytes());
    data.extend_from_slice(&[1u8; 79]);
    let mut cursor: &[u8] = &data;
    assert_eq!(Block::read(&mut cursor), Err(ParseError::Eof));
}

#[test]
fn read_fails_on_truncated_record() {
    let block = plain_block(3, 90);
    let data = record(&block);
    for cut in [1usize, 3, 4, 7, 8, 50, data.len() - 1] {
        let mut cursor: &[u8] = &data[..cut];
        assert_eq!(Block::read(&mut cursor), Err(ParseError::Eof));
    }
}

#[test]
fn framing_round_trip() {
    let blocks = vec![plain_block(1, 80), plain_block(2, 81), plain_block(3, 300)];
    for padding in [0usize, 1, 7, 512] {
        let mut data = Vec::new();
        for block in &blocks {
            data.extend_from_slice(&record(block));
        }
        data.extend_from_slice(&vec![0u8; padding]);
        let mut cursor: &[u8] = &data;
        for block in &blocks {
            let got = Block::read(&mut cursor).unwrap().unwrap();
            assert_eq!(got.as_bytes(), &block[..]);
        }
        assert_eq!(Block::read(&mut cursor), Ok(None));
        assert!(cursor.is_empty());
    }
}

#[test]
fn header_fields_of_the_genesis_block() {
    let mut block = genesis_header();
    block.push(0);
    let data = record(&block);
    let mut cursor: &[u8] = &data;
    let got = Block::read(&mut cursor).unwrap().unwrap();
    let header = got.header();
    assert_eq!(header.as_bytes(), &block[..80]);
    assert_eq!(header.version(), 1);
    assert!(header.prev_hash().is_zero());
    assert_eq!(header.merkle_root().to_bytes(), block[36..68].to_vec());
    assert_eq!(header.timestamp(), 1231006505);
    assert_eq!(header.bits(), 0x1d00ffff);
    assert_eq!(header.nonce(), 2083236893);
    assert_eq!(got.prev_hash(), header.prev_hash());
    assert_eq!(got.cur_hash(), header.cur_hash());
}

#[test]
fn double_sha256_of_the_genesis_header() {
    let header = genesis_header();
    let hash = double_sha256(&header);
    let expected: [u8; 32] = [
        0x6f, 0xe2, 0x8c, 0x0a, 0xb6, 0xf1, 0xb3, 0x72, 0xc1, 0xa6, 0xa2, 0x46, 0xae, 0x63, 0xf7,
        0x4f, 0x93, 0x1e, 0x83, 0x65, 0xe1, 0x5a, 0x08, 0x9c, 0x68, 0xd6, 0x19, 0x00, 0x00, 0x00,
        0x00, 0x00,
    ];
    assert_eq!(hash.to_bytes(), expected.to_vec());
    assert_eq!(chain_clusterizer::hash::Hash::from_slice(&expected), hash);
    assert!(!hash.is_zero());
}

#[test]
fn hash_bytes_round_trip() {
    let bytes: Vec<u8> = (1u8..=32).collect();
    let hash = chain_clusterizer::hash::Hash::from_slice(&bytes);
    assert_eq!(hash.to_bytes(), bytes);
    assert_eq!(hash.w0, 0x0807060504030201);
    let mut cursor: &[u8] = &bytes;
    assert_eq!(chain_clusterizer::hash::Hash::read(&mut cursor), Ok(hash));
    assert!(cursor.is_empty());
    assert!(chain_clusterizer::hash::zero_hash().is_zero());
    assert_eq!(chain_clusterizer::hash::zero_hash().to_bytes(), vec![0u8; 32]);
}
