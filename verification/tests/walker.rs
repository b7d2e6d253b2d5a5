use chain_clusterizer::address::Address;
use chain_clusterizer::block::Block;
use chain_clusterizer::blockchain::{BlockChain, Walker};
use chain_clusterizer::buffer_operations::write_var_int;
use chain_clusterizer::error::{EofError, ParseError};
use chain_clusterizer::hash::double_sha256;
use chain_clusterizer::output_items::OutputItems;
use chain_clusterizer::transactions::{
    Transaction, TransactionInput, TransactionOutput, Transactions,
};
use chain_clusterizer::visitors::clusterizer::Clusterizer;
use chain_clusterizer::visitors::BlockChainVisitor;

const ZERO: [u8; 32] = [0u8; 32];

fn p2pkh_script(fill: u8) -> Vec<u8> {
    let mut script = vec![0x76, 0xa9, 0x14];
    script.extend_from_slice(&[fill; 20]);
    script.extend_from_slice(&[0x88, 0xac]);
    script
}

fn address_of(fill: u8) -> String {
    let hash = [fill; 20];
    Address::from_hash160(chain_clusterizer::address::Hash160::from_slice(&hash), 0).0
}

fn transaction(inputs: &[(Vec<u8>, u32)], outputs: &[Vec<u8>], lock_time: u32) -> Vec<u8> {
    let mut tx = 1u32.to_le_bytes().to_vec();
    write_var_int(&mut tx, inputs.len() as u64);
    for (prev_hash, prev_index) in inputs {
        tx.extend_from_slice(prev_hash);
        tx.extend_from_slice(&prev_index.to_le_bytes());
        write_var_int(&mut tx, 2);
        tx.extend_from_slice(&[0x51, 0x51]);
        tx.extend_from_slice(&0xffff_ffffu32.to_le_bytes());
    }
    write_var_int(&mut tx, outputs.len() as u64);
    for script in outputs {
        tx.extend_from_slice(&50_0000_0000u64.to_le_bytes());
        write_var_int(&mut tx, script.len() as u64);
        tx.extend_from_slice(script);
    }
    tx.extend_from_slice(&lock_time.to_le_bytes());
    tx
}

fn coinbase(tag: u32, outputs: &[Vec<u8>]) -> Vec<u8> {
    transaction(&[(ZERO.to_vec(), 0xffff_ffff)], outputs, tag)
}

fn txid(tx: &[u8]) -> Vec<u8> {
    double_sha256(tx).to_bytes()
}

fn block(prev: &[u8], nonce: u32, txs: &[Vec<u8>]) -> Vec<u8> {
    let mut out = 1u32.to_le_bytes().to_vec();
    out.extend_from_slice(prev);
    out.extend_from_slice(&[0x11u8; 32]);
    out.extend_from_slice(&1231006505u32.to_le_bytes());
    out.extend_from_slice(&0x1d00ffffu32.to_le_bytes());
    out.extend_from_slice(&nonce.to_le_bytes());
    write_var_int(&mut out, txs.len() as u64);
    for tx in txs {
        out.extend_from_slice(tx);
    }
    out
}

fn simple_block(prev: &[u8], nonce: u32) -> Vec<u8> {
    block(prev, nonce, &[coinbase(nonce, &[p2pkh_script(0xa1)])])
}

fn hash_of(block: &[u8]) -> Vec<u8> {
    double_sha256(&block[..80]).to_bytes()
}

fn file(blocks: &[&Vec<u8>], padding: usize) -> Vec<u8> {
    let mut out = Vec::new();
    for block in blocks {
        out.extend_from_slice(&[0xf9, 0xbe, 0xb4, 0xd9]);
        out.extend_from_slice(&(block.len() as u32).to_le_bytes());
        out.extend_from_slice(block);
    }
    out.extend_from_slice(&vec![0u8; padding]);
    out
}

#[derive(Default)]
struct Recorder {
    begun: Vec<(Vec<u8>, u64)>,
    ended: Vec<u64>,
    transactions: usize,
    inputs: Vec<(Vec<u8>, u32, Option<u32>)>,
    outputs: usize,
    next_item: u32,
    calls: Vec<String>,
}

impl<'a> BlockChainVisitor<'a> for Recorder {
    type BlockItem = u64;
    type TransactionItem = usize;
    type OutputItem = u32;
    type DoneItem = usize;

    fn new() -> Self {
        Recorder::default()
    }

    fn visit_block_begin(&mut self, block: Block<'a>, height: u64) -> u64 {
        self.begun.push((block.cur_hash().to_bytes(), height));
        self.calls.push(format!("block_begin {}", height));
        height
    }

    fn visit_block_end(&mut self, _block: Block<'a>, height: u64, block_item: u64) {
        assert_eq!(height, block_item);
        self.ended.push(height);
        self.calls.push(format!("block_end {}", height));
    }

    fn visit_transaction_begin(&mut self, _block_item: &mut u64) -> usize {
        self.transactions += 1;
        self.calls.push("tx_begin".to_string());
        0
    }

    fn visit_transaction_input(
        &mut self,
        txin: TransactionInput<'a>,
        _block_item: &mut u64,
        tx_item: &mut usize,
        output_item: Option<u32>,
    ) {
        *tx_item += 1;
        self.calls.push(format!("input {} {:?}", txin.prev_index, output_item));
        self.inputs.push((txin.prev_hash.to_bytes(), txin.prev_index, output_item));
    }

    fn visit_transaction_output(
        &mut self,
        _txout: TransactionOutput<'a>,
        _block_item: &mut u64,
        _tx_item: &mut usize,
    ) -> Option<u32> {
        self.outputs += 1;
        self.next_item += 1;
        let item = if self.next_item % 2 == 1 { Some(self.next_item) } else { None };
        self.calls.push(format!("output {:?}", item));
        item
    }

    fn visit_transaction_end(&mut self, tx: Transaction<'a>, _block_item: &mut u64, tx_item: usize) {
        assert_eq!(tx.inputs.len(), tx_item);
        self.calls.push(format!("tx_end {}", tx.outputs.len()));
    }

    fn done(&mut self) -> Result<usize, EofError> {
        Ok(self.begun.len())
    }
}

fn walk(files: &[Vec<u8>]) -> (Recorder, Result<(u64, Vec<u8>), ParseError>) {
    let mut recorder = Recorder::new();
    let chain = BlockChain::new(files.iter().map(|f| &f[..]).collect()).unwrap();
    let result = chain.walk(&mut recorder).map(|(h, g, _)| (h, g.to_bytes()));
    (recorder, result)
}

fn emitted(recorder: &Recorder) -> Vec<Vec<u8>> {
    recorder.begun.iter().map(|(h, _)| h.clone()).collect()
}

fn heights(recorder: &Recorder) -> Vec<u64> {
    recorder.begun.iter().map(|(_, h)| *h).collect()
}

#[test]
fn empty_file_of_zero_bytes() {
    let (recorder, result) = walk(&[vec![0u8; 512]]);
    assert_eq!(result, Ok((0, ZERO.to_vec())));
    assert!(recorder.begun.is_empty());
    let mut clusterizer = Clusterizer::new();
    let chain_file = vec![0u8; 512];
    let chain = BlockChain::new(vec![&chain_file[..]]).unwrap();
    let (height, goal, _) = chain.walk(&mut clusterizer).unwrap();
    assert_eq!(height, 0);
    assert!(goal.is_zero());
    assert_eq!(clusterizer.done(), Ok((0, String::new())));
}

#[test]
fn no_files_at_all() {
    let (recorder, result) = walk(&[]);
    assert_eq!(result, Ok((0, ZERO.to_vec())));
    assert!(recorder.begun.is_empty());
}

#[test]
fn linear_three_block_chain() {
    let genesis = simple_block(&ZERO, 0);
    let block1 = simple_block(&hash_of(&genesis), 1);
    let block2 = simple_block(&hash_of(&block1), 2);
    let (recorder, result) = walk(&[file(&[&genesis, &block1, &block2], 0)]);
    assert_eq!(heights(&recorder), vec![0, 1]);
    assert_eq!(emitted(&recorder), vec![hash_of(&genesis), hash_of(&block1)]);
    assert_eq!(recorder.ended, vec![0, 1]);
    // The block accepted last is held back, and its hash is the goal.
    assert_eq!(result, Ok((2, hash_of(&block2))));

    let data = file(&[&genesis, &block1, &block2], 0);
    let chain = BlockChain::new(vec![&data[..]]).unwrap();
    let mut clusterizer = Clusterizer::new();
    chain.walk(&mut clusterizer).unwrap();
    assert_eq!(clusterizer.done(), Ok((0, String::new())));
}

#[test]
fn linear_chain_with_padding_holds_last_block_back() {
    let genesis = simple_block(&ZERO, 0);
    let block1 = simple_block(&hash_of(&genesis), 1);
    let block2 = simple_block(&hash_of(&block1), 2);
    let (recorder, result) = walk(&[file(&[&genesis, &block1, &block2], 100)]);
    assert_eq!(heights(&recorder), vec![0, 1]);
    assert_eq!(result, Ok((2, hash_of(&block2))));
}

#[test]
fn out_of_order_within_file() {
    let genesis = simple_block(&ZERO, 0);
    let block1 = simple_block(&hash_of(&genesis), 1);
    let block2 = simple_block(&hash_of(&block1), 2);
    let data = file(&[&genesis, &block2, &block1], 0);

    let mut walker = Walker::new();
    let mut recorder = Recorder::new();
    let mut items: OutputItems<u32> = OutputItems::new();
    assert_eq!(walker.walk_slice(&data, &mut items, &mut recorder), Ok(()));
    // The file ends behind block1: the genesis block was visited when block1
    // was accepted, block1 is held back and block2 waits for it.
    assert_eq!(emitted(&recorder), vec![hash_of(&genesis)]);
    assert_eq!(heights(&recorder), vec![0]);
    assert_eq!(walker.height(), 1);
    assert_eq!(walker.last_block().unwrap().as_bytes(), &block1[..]);
    assert_eq!(walker.goal_prev_hash().to_bytes(), hash_of(&block1));
    assert!(walker.is_skipped(&double_sha256(&block1[..80])));

    // Whatever is read next first drains the side table.
    let padding = vec![0u8; 16];
    assert_eq!(walker.walk_slice(&padding, &mut items, &mut recorder), Ok(()));
    assert_eq!(emitted(&recorder), vec![hash_of(&genesis), hash_of(&block1), hash_of(&block2)]);
    assert_eq!(heights(&recorder), vec![0, 1, 2]);
    assert_eq!(walker.height(), 3);
    assert!(walker.last_block().is_none());
    assert_eq!(walker.goal_prev_hash().to_bytes(), hash_of(&block2));
    assert!(!walker.is_skipped(&double_sha256(&block1[..80])));
}

#[test]
fn cross_file_deferral() {
    let genesis = simple_block(&ZERO, 0);
    let block1 = simple_block(&hash_of(&genesis), 1);
    let block2 = simple_block(&hash_of(&block1), 2);
    let block3 = simple_block(&hash_of(&block2), 3);
    let (recorder, result) =
        walk(&[file(&[&genesis, &block2], 0), file(&[&block1, &block3], 0)]);
    assert_eq!(emitted(&recorder), vec![hash_of(&genesis), hash_of(&block1), hash_of(&block2)]);
    assert_eq!(heights(&recorder), vec![0, 1, 2]);
    assert_eq!(result, Ok((3, hash_of(&block3))));
}

#[test]
fn two_way_split_first_wins() {
    let parent = simple_block(&ZERO, 0);
    let a = simple_block(&hash_of(&parent), 10);
    let b = simple_block(&hash_of(&parent), 20);
    let c = simple_block(&hash_of(&a), 30);
    let d = simple_block(&hash_of(&c), 40);
    let (recorder, result) = walk(&[file(&[&parent, &a, &b, &c, &d], 0)]);
    assert_eq!(emitted(&recorder), vec![hash_of(&parent), hash_of(&a), hash_of(&c)]);
    assert_eq!(heights(&recorder), vec![0, 1, 2]);
    assert!(!emitted(&recorder).contains(&hash_of(&b)));
    assert_eq!(result, Ok((3, hash_of(&d))));
}

#[test]
fn two_way_split_second_wins() {
    let parent = simple_block(&ZERO, 0);
    let a = simple_block(&hash_of(&parent), 10);
    let b = simple_block(&hash_of(&parent), 20);
    let c = simple_block(&hash_of(&b), 30);
    let d = simple_block(&hash_of(&c), 40);
    let (recorder, result) = walk(&[file(&[&parent, &a, &b, &c, &d], 0)]);
    assert_eq!(emitted(&recorder), vec![hash_of(&parent), hash_of(&b), hash_of(&c)]);
    assert!(!emitted(&recorder).contains(&hash_of(&a)));
    assert_eq!(result, Ok((3, hash_of(&d))));
}

#[test]
fn split_is_decided_by_the_child_that_comes_first() {
    let parent = simple_block(&ZERO, 0);
    let a = simple_block(&hash_of(&parent), 10);
    let b = simple_block(&hash_of(&parent), 20);
    let stray = simple_block(&[0x77u8; 32], 25);
    let child_of_b = simple_block(&hash_of(&b), 30);
    let child_of_a = simple_block(&hash_of(&a), 40);
    let (recorder, _) =
        walk(&[file(&[&parent, &a, &b, &stray, &child_of_b, &child_of_a], 8)]);
    assert_eq!(emitted(&recorder), vec![hash_of(&parent), hash_of(&b), hash_of(&child_of_b)]);
    let (recorder, _) =
        walk(&[file(&[&parent, &a, &b, &stray, &child_of_a, &child_of_b], 8)]);
    assert_eq!(emitted(&recorder), vec![hash_of(&parent), hash_of(&a), hash_of(&child_of_a)]);
}

#[test]
fn unresolved_split_ends_with_the_file() {
    let parent = simple_block(&ZERO, 0);
    let a = simple_block(&hash_of(&parent), 10);
    let b = simple_block(&hash_of(&parent), 20);
    let (recorder, result) = walk(&[file(&[&parent, &a, &b], 32)]);
    assert_eq!(emitted(&recorder), vec![hash_of(&parent)]);
    assert_eq!(result, Ok((1, hash_of(&a))));
}

#[test]
fn heights_ascend_and_parents_are_continuous() {
    let mut blocks = vec![simple_block(&ZERO, 0)];
    for nonce in 1u32..8 {
        let prev = hash_of(blocks.last().unwrap());
        blocks.push(simple_block(&prev, nonce));
    }
    // In the file every second pair is swapped.
    let order = [0usize, 2, 1, 3, 5, 4, 6, 7];
    let in_file: Vec<&Vec<u8>> = order.iter().map(|i| &blocks[*i]).collect();
    let (recorder, result) = walk(&[file(&in_file, 64)]);
    let n = recorder.begun.len();
    assert_eq!(heights(&recorder), (0..n as u64).collect::<Vec<u64>>());
    assert_eq!(result.unwrap().0, n as u64);
    for (i, (hash, _)) in recorder.begun.iter().enumerate() {
        assert_eq!(hash, &hash_of(&blocks[i]));
        let expected_parent = if i == 0 { ZERO.to_vec() } else { hash_of(&blocks[i - 1]) };
        assert_eq!(blocks[i][4..36].to_vec(), expected_parent);
    }
    assert_eq!(n, 7);
}

#[test]
fn invalid_magic_halts_the_traversal() {
    let genesis = simple_block(&ZERO, 0);
    let mut data = file(&[&genesis], 0);
    data.extend_from_slice(&[0x01, 0x02, 0x03, 0x04, 0x05, 0x06, 0x07, 0x08]);
    let (_, result) = walk(&[data]);
    assert_eq!(result, Err(ParseError::Invalid));
}

#[test]
fn truncated_record_halts_the_traversal() {
    let genesis = simple_block(&ZERO, 0);
    let block1 = simple_block(&hash_of(&genesis), 1);
    let mut data = file(&[&genesis, &block1], 0);
    data.truncate(data.len() - 1);
    let (_, result) = walk(&[data]);
    assert_eq!(result, Err(ParseError::Eof));
}

#[test]
fn unreadable_transactions_halt_the_traversal_when_the_block_is_visited() {
    let mut genesis = simple_block(&ZERO, 0);
    genesis.truncate(genesis.len() - 2);
    let block1 = simple_block(&hash_of(&genesis), 1);
    let (recorder, result) = walk(&[file(&[&genesis, &block1], 0)]);
    assert_eq!(result, Err(ParseError::Eof));
    assert_eq!(heights(&recorder), vec![0]);
    assert!(recorder.ended.is_empty());
    // Alone in the file the block is never visited, and nothing fails.
    let (recorder, result) = walk(&[file(&[&genesis], 0)]);
    assert_eq!(result, Ok((0, hash_of(&genesis))));
    assert!(recorder.begun.is_empty());
}

#[test]
fn spent_outputs_leave_the_table() {
    let cb0 = coinbase(0, &[p2pkh_script(1), p2pkh_script(2), p2pkh_script(3)]);
    let genesis = block(&ZERO, 0, &[cb0.clone()]);
    let spend = transaction(&[(txid(&cb0), 0), (txid(&cb0), 1)], &[p2pkh_script(4)], 0);
    let cb1 = coinbase(1, &[p2pkh_script(5)]);
    let block1 = block(&hash_of(&genesis), 1, &[cb1.clone(), spend.clone()]);
    let block2 = simple_block(&hash_of(&block1), 2);
    let data = file(&[&genesis, &block1, &block2], 0);
    let chain = BlockChain::new(vec![&data[..]]).unwrap();
    assert_eq!(chain.len(), 1);
    let mut recorder = Recorder::new();
    let (height, _, items) = chain.walk(&mut recorder).unwrap();
    assert_eq!(height, 2);
    assert_eq!(recorder.transactions, 3);
    assert_eq!(recorder.outputs, 5);
    // The recorder keeps an item for every second output, counted from one.
    let zero = chain_clusterizer::hash::zero_hash().to_bytes();
    assert_eq!(
        recorder.inputs,
        vec![
            (zero.clone(), 0xffff_ffff, None),
            (zero.clone(), 0xffff_ffff, None),
            (txid(&cb0), 0, Some(1)),
            (txid(&cb0), 1, None),
        ]
    );
    let id0 = double_sha256(&cb0);
    let id1 = double_sha256(&cb1);
    let id2 = double_sha256(&spend);
    assert!(!items.contains(&id0, 0));
    assert!(!items.contains(&id0, 1));
    assert_eq!(items.get(&id0, 2), Some(&3));
    assert_eq!(items.get(&id1, 0), None);
    assert_eq!(items.get(&id2, 0), Some(&5));
    assert_eq!(items.get(&id2, 1), None);
}

#[test]
fn callbacks_come_in_the_order_of_the_block() {
    let cb0 = coinbase(0, &[p2pkh_script(1), p2pkh_script(2), p2pkh_script(3)]);
    let genesis = block(&ZERO, 0, &[cb0.clone()]);
    let spend = transaction(&[(txid(&cb0), 2), (txid(&cb0), 0)], &[p2pkh_script(4)], 0);
    let cb1 = coinbase(1, &[p2pkh_script(5)]);
    let block1 = block(&hash_of(&genesis), 1, &[cb1, spend]);
    let block2 = simple_block(&hash_of(&block1), 2);
    let (recorder, result) = walk(&[file(&[&genesis, &block1, &block2], 0)]);
    assert_eq!(result.unwrap().0, 2);
    let expected = [
        "block_begin 0",
        "tx_begin",
        "input 4294967295 None",
        "output Some(1)",
        "output None",
        "output Some(3)",
        "tx_end 3",
        "block_end 0",
        "block_begin 1",
        "tx_begin",
        "input 4294967295 None",
        "output None",
        "tx_end 1",
        "tx_begin",
        "input 2 Some(3)",
        "input 0 Some(1)",
        "output Some(5)",
        "tx_end 1",
        "block_end 1",
    ];
    assert_eq!(recorder.calls, expected);
}

#[test]
fn output_items_put_and_take() {
    let a = double_sha256(b"a");
    let b = double_sha256(b"b");
    let mut items: OutputItems<u32> = OutputItems::new();
    assert_eq!(items.take(&a, 0), None);
    items.put(a, 2, 20);
    items.put(a, 0, 10);
    items.put(b, 1, 30);
    assert!(items.contains(&a, 0) && items.contains(&a, 2) && items.contains(&b, 1));
    assert!(!items.contains(&a, 1) && !items.contains(&b, 0) && !items.contains(&a, 3));
    items.put(a, 2, 21);
    assert_eq!(items.take(&a, 2), Some(21));
    assert_eq!(items.take(&a, 2), None);
    assert_eq!(items.take(&a, 7), None);
    assert_eq!(items.take(&a, 0), Some(10));
    assert_eq!(items.take(&a, 0), None);
    assert_eq!(items.get(&b, 1), Some(&30));
    assert_eq!(items.take(&b, 1), Some(30));
    assert!(!items.contains(&b, 1));
}

#[test]
fn transaction_with_witness_data() {
    let legacy = transaction(&[(vec![9u8; 32], 3)], &[p2pkh_script(1)], 7);
    // The same transaction with marker, flag and one witness of two items.
    let mut segwit = legacy[..4].to_vec();
    segwit.extend_from_slice(&[0x00, 0x01]);
    segwit.extend_from_slice(&legacy[4..legacy.len() - 4]);
    segwit.extend_from_slice(&[0x02, 0x01, 0xaa, 0x02, 0xbb, 0xcc]);
    segwit.extend_from_slice(&legacy[legacy.len() - 4..]);
    segwit.push(0x99);
    let mut cursor: &[u8] = &segwit;
    let tx = Transaction::read(&mut cursor).unwrap();
    assert_eq!(cursor, &[0x99u8][..]);
    assert_eq!(tx.version, 1);
    assert_eq!(tx.lock_time, 7);
    assert_eq!(tx.inputs.len(), 1);
    assert_eq!(tx.inputs[0].prev_index, 3);
    assert_eq!(tx.inputs[0].prev_hash.to_bytes(), vec![9u8; 32]);
    assert_eq!(tx.inputs[0].sequence_no, 0xffff_ffff);
    assert_eq!(tx.inputs[0].script.0, &[0x51u8, 0x51][..]);
    assert!(!tx.inputs[0].is_coinbase());
    assert_eq!(tx.outputs.len(), 1);
    assert_eq!(tx.outputs[0].value, 50_0000_0000);
    assert_eq!(tx.outputs[0].script.0, &p2pkh_script(1)[..]);
    // Witness data does not enter the hash that names the transaction.
    assert_eq!(tx.txid, double_sha256(&legacy));

    let mut cursor: &[u8] = &legacy;
    let plain = Transaction::read(&mut cursor).unwrap();
    assert!(cursor.is_empty());
    assert_eq!(plain.txid, tx.txid);
}

#[test]
fn transaction_errors() {
    let legacy = transaction(&[(vec![9u8; 32], 3)], &[p2pkh_script(1)], 7);
    for cut in [0usize, 3, 4, 5, 40, legacy.len() - 1] {
        let mut cursor: &[u8] = &legacy[..cut];
        assert_eq!(Transaction::read(&mut cursor).err(), Some(ParseError::Eof));
    }
    // A marker with a flag that is not one.
    let mut bad = legacy[..4].to_vec();
    bad.extend_from_slice(&[0x00, 0x02]);
    bad.extend_from_slice(&legacy[4..]);
    let mut cursor: &[u8] = &bad;
    assert_eq!(Transaction::read(&mut cursor).err(), Some(ParseError::Invalid));
    let mut cursor: &[u8] = &bad[..5];
    assert_eq!(Transaction::read(&mut cursor).err(), Some(ParseError::Eof));
}

#[test]
fn transactions_of_a_block() {
    let cb = coinbase(5, &[p2pkh_script(1)]);
    let data = block(&ZERO, 0, &[cb.clone(), cb.clone()]);
    let record = file(&[&data], 0);
    let mut cursor: &[u8] = &record;
    let got = Block::read(&mut cursor).unwrap().unwrap();
    let txs: Transactions = got.transactions().unwrap();
    assert_eq!(txs.count, 2);
    assert_eq!(txs.slice.len(), 2 * cb.len());
    let header_only = vec![1u8; 80];
    let record = file(&[&header_only], 0);
    let mut cursor: &[u8] = &record;
    let got = Block::read(&mut cursor).unwrap().unwrap();
    assert_eq!(got.transactions().err(), Some(EofError));
}

#[test]
fn clusterization() {
    let (x, y, z, w) = (0x21u8, 0x22u8, 0x23u8, 0x24u8);
    let cb0 = coinbase(0, &[p2pkh_script(x), p2pkh_script(y), p2pkh_script(z), p2pkh_script(w)]);
    let block0 = block(&ZERO, 0, &[cb0.clone()]);
    let tx1 = transaction(
        &[(txid(&cb0), 0), (txid(&cb0), 1), (txid(&cb0), 2)],
        &[p2pkh_script(y)],
        0,
    );
    let block1 = block(&hash_of(&block0), 1, &[coinbase(1, &[vec![0x6a]]), tx1.clone()]);
    let block2 = simple_block(&hash_of(&block1), 2);
    let data = file(&[&block0, &block1, &block2], 0);
    let chain = BlockChain::new(vec![&data[..]]).unwrap();
    let mut clusterizer = Clusterizer::new();
    chain.walk(&mut clusterizer).unwrap();
    let root = clusterizer.find(&Address(address_of(x)));
    assert!(root.is_some());
    assert_eq!(clusterizer.find(&Address(address_of(y))), root);
    assert_eq!(clusterizer.find(&Address(address_of(z))), root);
    assert_eq!(clusterizer.find(&Address(address_of(w))), None);
    assert_eq!(clusterizer.size(), 3);

    // A later transaction spends outputs of y and w: w joins the cluster.
    let tx2 = transaction(&[(txid(&tx1), 0), (txid(&cb0), 3)], &[p2pkh_script(x)], 0);
    let block2 = block(&hash_of(&block1), 2, &[coinbase(2, &[vec![0x6a]]), tx2]);
    let block3 = simple_block(&hash_of(&block2), 3);
    let data = file(&[&block0, &block1, &block2, &block3], 0);
    let chain = BlockChain::new(vec![&data[..]]).unwrap();
    let mut clusterizer = Clusterizer::new();
    let (height, _, items) = chain.walk(&mut clusterizer).unwrap();
    assert_eq!(height, 3);
    let (n, text) = clusterizer.done().unwrap();
    assert_eq!(n, 4);
    let expected = format!(
        "{},1\n{},1\n{},1\n{},1\n",
        address_of(x),
        address_of(y),
        address_of(z),
        address_of(w)
    );
    assert_eq!(text, expected);
    let root = clusterizer.find(&Address(address_of(x)));
    assert_eq!(root, Some(1));
    for fill in [y, z, w] {
        assert_eq!(clusterizer.find(&Address(address_of(fill))), root);
    }
    // The outputs that were spent are gone, the last one is still there.
    assert!(!items.contains(&double_sha256(&cb0), 0));
    assert!(!items.contains(&double_sha256(&cb0), 3));
    assert_eq!(items.get(&double_sha256(&tx1), 0), None);
    let last = block2[81..].to_vec();
    let tx2_bytes = &last[coinbase(2, &[vec![0x6a]]).len()..];
    assert_eq!(items.get(&double_sha256(tx2_bytes), 0), Some(&Address(address_of(x))));
}

#[test]
fn single_input_transactions_form_no_cluster() {
    let cb0 = coinbase(0, &[p2pkh_script(1), p2pkh_script(2)]);
    let block0 = block(&ZERO, 0, &[cb0.clone()]);
    // Two inputs, both paid to the same address: one address, no cluster.
    let cb1 = coinbase(1, &[p2pkh_script(1)]);
    let tx = transaction(&[(txid(&cb0), 0), (txid(&cb1), 0)], &[p2pkh_script(3)], 0);
    let block1 = block(&hash_of(&block0), 1, &[cb1.clone(), tx]);
    let block2 = simple_block(&hash_of(&block1), 2);
    let data = file(&[&block0, &block1, &block2], 0);
    let chain = BlockChain::new(vec![&data[..]]).unwrap();
    let mut clusterizer = Clusterizer::new();
    chain.walk(&mut clusterizer).unwrap();
    assert_eq!(clusterizer.done(), Ok((0, String::new())));
}
