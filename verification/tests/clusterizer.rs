use chain_clusterizer::address::{Address, Hash160};
use chain_clusterizer::hash::zero_hash;
use chain_clusterizer::script::{HighLevel, Script};
use chain_clusterizer::transactions::{TransactionInput, TransactionOutput};
use chain_clusterizer::visitors::clusterizer::{push_decimal, AddressSet, Clusterizer};
use chain_clusterizer::visitors::BlockChainVisitor;

fn hex(text: &str) -> Vec<u8> {
    (0..text.len() / 2).map(|i| u8::from_str_radix(&text[2 * i..2 * i + 2], 16).unwrap()).collect()
}

fn input(prev_fill: u8) -> TransactionInput<'static> {
    TransactionInput {
        prev_hash: chain_clusterizer::hash::Hash::from_slice(&[prev_fill; 32]),
        prev_index: 0,
        script: Script::new(&[]),
        sequence_no: 0,
    }
}

fn output(script: &[u8]) -> TransactionOutput<'_> {
    TransactionOutput { value: 1, script: Script::new(script) }
}

fn address(name: &str) -> Address {
    Address(name.to_string())
}

#[test]
fn pay_to_pubkey_hash_address() {
    let hash = hex("62e907b15cbf27d5425399ebf6f0fb50ebb88f18");
    let a = Address::from_hash160(Hash160::from_slice(&hash), 0x00);
    assert_eq!(a.as_str(), "1A1zP1eP5QGefi2DMPTfTL5SLmv7DivfNa");
    assert_eq!(Hash160::from_slice(&hash).as_bytes(), &hash[..]);
}

#[test]
fn pay_to_script_hash_address_starts_with_three() {
    let hash = hex("62e907b15cbf27d5425399ebf6f0fb50ebb88f18");
    let a = Address::from_hash160(Hash160::from_slice(&hash), 0x05);
    assert!(a.as_str().starts_with('3'));
    assert_eq!(a.as_str().len(), 34);
    assert!(!a.same(&Address::from_hash160(Hash160::from_slice(&hash), 0x00)));
    assert!(a.same(&a.duplicate()));
}

#[test]
fn witness_addresses() {
    let program = hex("751e76e8199196d454941c45d1b3a323f1433bd6");
    let a = Address::from_witness_program(0, &program).unwrap();
    assert_eq!(a.as_str(), "bc1qw508d6qejxtdg4y5r3zarvary0c5xw7kv8f3t4");
    let program = hex("1863143c14c5166804bd19203356da136c985678cd4d27a1b8c6329604903262");
    let a = Address::from_witness_program(0, &program).unwrap();
    assert_eq!(a.as_str(), "bc1qrp33g0q5c5txsp9arysrx4k6zdkfs4nce4xj0gdcccefvpysxf3qccfmv3");
    // A program of version zero is 20 or 32 bytes long; no version is above 16.
    assert_eq!(Address::from_witness_program(0, &[1u8; 21]), None);
    assert_eq!(Address::from_witness_program(17, &[1u8; 20]), None);
    assert_eq!(Address::from_witness_program(200, &[1u8; 20]), None);
}

#[test]
fn script_templates() {
    let h20 = [7u8; 20];
    let mut p2pkh = vec![0x76, 0xa9, 0x14];
    p2pkh.extend_from_slice(&h20);
    p2pkh.extend_from_slice(&[0x88, 0xac]);
    assert!(matches!(Script::new(&p2pkh).to_highlevel(), HighLevel::PayToPubkeyHash(h) if h == &h20[..]));
    let mut p2sh = vec![0xa9, 0x14];
    p2sh.extend_from_slice(&h20);
    p2sh.push(0x87);
    assert!(matches!(Script::new(&p2sh).to_highlevel(), HighLevel::PayToScriptHash(h) if h == &h20[..]));
    let mut p2wpkh = vec![0x00, 0x14];
    p2wpkh.extend_from_slice(&h20);
    assert!(matches!(Script::new(&p2wpkh).to_highlevel(), HighLevel::PayToWitnessPubkeyHash(w) if w == &h20[..]));
    let mut p2wsh = vec![0x00, 0x20];
    p2wsh.extend_from_slice(&[9u8; 32]);
    assert!(matches!(Script::new(&p2wsh).to_highlevel(), HighLevel::PayToWitnessScriptHash(w) if w == &[9u8; 32][..]));
    let mut p2pk = vec![0x21];
    p2pk.extend_from_slice(&[2u8; 33]);
    p2pk.push(0xac);
    assert!(matches!(Script::new(&p2pk).to_highlevel(), HighLevel::PayToPubkey));
    let mut p2pk_long = vec![0x41];
    p2pk_long.extend_from_slice(&[4u8; 65]);
    p2pk_long.push(0xac);
    assert!(matches!(Script::new(&p2pk_long).to_highlevel(), HighLevel::PayToPubkey));
    assert!(matches!(Script::new(&[0x6a, 0x01, 0x02]).to_highlevel(), HighLevel::OpReturn));
    assert!(matches!(Script::new(&[]).to_highlevel(), HighLevel::Other));
    assert!(matches!(Script::new(&[0x51]).to_highlevel(), HighLevel::Other));
    // One byte off a template is another script.
    p2pkh[24] = 0xad;
    assert!(matches!(Script::new(&p2pkh).to_highlevel(), HighLevel::Other));
    p2sh[1] = 0x15;
    assert!(matches!(Script::new(&p2sh).to_highlevel(), HighLevel::Other));
}

#[test]
fn output_projects_to_address() {
    let mut c = Clusterizer::new();
    let mut tx_item = c.visit_transaction_begin(&mut ());
    let hash = hex("62e907b15cbf27d5425399ebf6f0fb50ebb88f18");
    let mut p2pkh = vec![0x76, 0xa9, 0x14];
    p2pkh.extend_from_slice(&hash);
    p2pkh.extend_from_slice(&[0x88, 0xac]);
    assert_eq!(
        c.visit_transaction_output(output(&p2pkh), &mut (), &mut tx_item),
        Some(address("1A1zP1eP5QGefi2DMPTfTL5SLmv7DivfNa"))
    );
    let mut p2sh = vec![0xa9, 0x14];
    p2sh.extend_from_slice(&hash);
    p2sh.push(0x87);
    assert_eq!(
        c.visit_transaction_output(output(&p2sh), &mut (), &mut tx_item),
        Some(Address::from_hash160(Hash160::from_slice(&hash), 0x05))
    );
    let mut p2wpkh = vec![0x00, 0x14];
    p2wpkh.extend_from_slice(&hex("751e76e8199196d454941c45d1b3a323f1433bd6"));
    assert_eq!(
        c.visit_transaction_output(output(&p2wpkh), &mut (), &mut tx_item),
        Some(address("bc1qw508d6qejxtdg4y5r3zarvary0c5xw7kv8f3t4"))
    );
    let mut p2wsh = vec![0x00, 0x20];
    p2wsh.extend_from_slice(&hex(
        "1863143c14c5166804bd19203356da136c985678cd4d27a1b8c6329604903262",
    ));
    assert_eq!(
        c.visit_transaction_output(output(&p2wsh), &mut (), &mut tx_item),
        Some(address("bc1qrp33g0q5c5txsp9arysrx4k6zdkfs4nce4xj0gdcccefvpysxf3qccfmv3"))
    );
    let mut p2pk = vec![0x21];
    p2pk.extend_from_slice(&[2u8; 33]);
    p2pk.push(0xac);
    for script in [&p2pk[..], &[0x6a, 0x00][..], &[][..], &[0x51][..]] {
        assert_eq!(c.visit_transaction_output(output(script), &mut (), &mut tx_item), None);
    }
    assert_eq!(tx_item.len(), 0);
}

#[test]
fn coinbase_input_contributes_no_address() {
    let mut c = Clusterizer::new();
    let mut tx_item = c.visit_transaction_begin(&mut ());
    let mut coinbase = input(0);
    coinbase.prev_hash = zero_hash();
    coinbase.prev_index = 0xffff_ffff;
    assert!(coinbase.is_coinbase());
    c.visit_transaction_input(coinbase, &mut (), &mut tx_item, Some(address("a")));
    assert_eq!(tx_item.len(), 0);
    c.visit_transaction_input(coinbase, &mut (), &mut tx_item, None);
    assert_eq!(tx_item.len(), 0);
    c.visit_transaction_input(input(1), &mut (), &mut tx_item, Some(address("a")));
    assert_eq!(tx_item.len(), 1);
    c.visit_transaction_input(coinbase, &mut (), &mut tx_item, Some(address("b")));
    assert_eq!(tx_item.len(), 1);
    assert!(!tx_item.contains(&address("b")));
}

#[test]
fn inputs_collect_distinct_addresses() {
    let mut c = Clusterizer::new();
    let mut tx_item = c.visit_transaction_begin(&mut ());
    c.visit_transaction_input(input(1), &mut (), &mut tx_item, None);
    assert_eq!(tx_item.len(), 0);
    c.visit_transaction_input(input(1), &mut (), &mut tx_item, Some(address("a")));
    c.visit_transaction_input(input(2), &mut (), &mut tx_item, Some(address("b")));
    c.visit_transaction_input(input(3), &mut (), &mut tx_item, Some(address("a")));
    assert_eq!(tx_item.len(), 2);
    assert_eq!(tx_item.get(0), &address("a"));
    assert_eq!(tx_item.get(1), &address("b"));
    assert!(tx_item.contains(&address("a")) && !tx_item.contains(&address("c")));
}

#[test]
fn address_set_insert() {
    let mut set = AddressSet::new();
    assert_eq!(set.len(), 0);
    set.insert(address("x"));
    set.insert(address("y"));
    set.insert(address("x"));
    assert_eq!(set.len(), 2);
    assert_eq!(set.get(1).as_str(), "y");
}

#[test]
fn decimal_text() {
    for n in [0usize, 1, 9, 10, 11, 99, 100, 101, 1234567890, usize::MAX] {
        let mut out = String::from("n=");
        push_decimal(&mut out, n);
        assert_eq!(out, format!("n={}", n));
    }
}

#[test]
fn done_writes_one_line_for_each_address() {
    let mut c = Clusterizer::new();
    assert_eq!(c.size(), 0);
    let tx = chain_clusterizer::transactions::Transaction {
        version: 1,
        inputs: Vec::new(),
        outputs: Vec::new(),
        lock_time: 0,
        txid: zero_hash(),
    };
    let mut first = AddressSet::new();
    for name in ["p", "q", "r"] {
        first.insert(address(name));
    }
    c.visit_transaction_end(tx.clone(), &mut (), first);
    let mut alone = AddressSet::new();
    alone.insert(address("s"));
    c.visit_transaction_end(tx.clone(), &mut (), alone);
    c.visit_transaction_end(tx.clone(), &mut (), AddressSet::new());
    let mut second = AddressSet::new();
    for name in ["t", "u"] {
        second.insert(address(name));
    }
    c.visit_transaction_end(tx, &mut (), second);
    assert_eq!(c.size(), 5);
    assert_eq!(c.find(&address("s")), None);
    assert_eq!(c.done(), Ok((5, "p,1\nq,1\nr,1\nt,4\nu,4\n".to_string())));
    assert_eq!(c.find(&address("p")), c.find(&address("r")));
    assert_ne!(c.find(&address("p")), c.find(&address("t")));
}
