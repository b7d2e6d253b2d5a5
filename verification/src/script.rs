//! Locking scripts and the standard templates among them.

use vstd::prelude::*;
use vstd::slice::slice_subrange;

verus! {

pub const OP_0: u8 = 0x00;

pub const OP_RETURN: u8 = 0x6a;

pub const OP_DUP: u8 = 0x76;

pub const OP_EQUAL: u8 = 0x87;

pub const OP_EQUALVERIFY: u8 = 0x88;

pub const OP_HASH160: u8 = 0xa9;

pub const OP_CHECKSIG: u8 = 0xac;

/// What a locking script asks of the one who spends the output.
#[derive(Clone, Copy, Debug)]
pub enum HighLevel<'a> {
    /// Pay to a public key that the script holds in full.
    PayToPubkey,
    /// Pay to the public key with this 20-byte hash.
    PayToPubkeyHash(&'a [u8]),
    /// Pay to the script with this 20-byte hash.
    PayToScriptHash(&'a [u8]),
    /// Pay to the witness program of 20 bytes: the hash of a public key.
    PayToWitnessPubkeyHash(&'a [u8]),
    /// Pay to the witness program of 32 bytes: the hash of a script.
    PayToWitnessScriptHash(&'a [u8]),
    /// An output that carries data and cannot be spent.
    OpReturn,
    /// Any other script.
    Other,
}

/// `HighLevel` as contracts see it.
pub enum HighLevelView {
    PayToPubkey,
    PayToPubkeyHash(Seq<u8>),
    PayToScriptHash(Seq<u8>),
    PayToWitnessPubkeyHash(Seq<u8>),
    PayToWitnessScriptHash(Seq<u8>),
    OpReturn,
    Other,
}

impl<'a> View for HighLevel<'a> {
    type V = HighLevelView;

    open spec fn view(&self) -> HighLevelView {
        match *self {
            HighLevel::PayToPubkey => HighLevelView::PayToPubkey,
            HighLevel::PayToPubkeyHash(h) => HighLevelView::PayToPubkeyHash(h@),
            HighLevel::PayToScriptHash(h) => HighLevelView::PayToScriptHash(h@),
            HighLevel::PayToWitnessPubkeyHash(w) => HighLevelView::PayToWitnessPubkeyHash(w@),
            HighLevel::PayToWitnessScriptHash(w) => HighLevelView::PayToWitnessScriptHash(w@),
            HighLevel::OpReturn => HighLevelView::OpReturn,
            HighLevel::Other => HighLevelView::Other,
        }
    }
}

/// `OP_DUP OP_HASH160 <20 bytes> OP_EQUALVERIFY OP_CHECKSIG`.
pub open spec fn is_pay_to_pubkey_hash(s: Seq<u8>) -> bool {
    s.len() == 25 && s[0] == OP_DUP && s[1] == OP_HASH160 && s[2] == 20 && s[23] == OP_EQUALVERIFY
        && s[24] == OP_CHECKSIG
}

/// `OP_HASH160 <20 bytes> OP_EQUAL`.
pub open spec fn is_pay_to_script_hash(s: Seq<u8>) -> bool {
    s.len() == 23 && s[0] == OP_HASH160 && s[1] == 20 && s[22] == OP_EQUAL
}

/// `OP_0 <20 bytes>`.
pub open spec fn is_pay_to_witness_pubkey_hash(s: Seq<u8>) -> bool {
    s.len() == 22 && s[0] == OP_0 && s[1] == 20
}

/// `OP_0 <32 bytes>`.
pub open spec fn is_pay_to_witness_script_hash(s: Seq<u8>) -> bool {
    s.len() == 34 && s[0] == OP_0 && s[1] == 32
}

/// `<33 or 65 bytes> OP_CHECKSIG`.
pub open spec fn is_pay_to_pubkey(s: Seq<u8>) -> bool {
    (s.len() == 35 && s[0] == 33 && s[34] == OP_CHECKSIG) || (s.len() == 67 && s[0] == 65 && s[66]
        == OP_CHECKSIG)
}

/// The template that the script `s` follows, with the hash or witness
/// program that it names.
pub open spec fn classify(s: Seq<u8>) -> HighLevelView {
    if is_pay_to_pubkey_hash(s) {
        HighLevelView::PayToPubkeyHash(s.subrange(3, 23))
    } else if is_pay_to_script_hash(s) {
        HighLevelView::PayToScriptHash(s.subrange(2, 22))
    } else if is_pay_to_witness_pubkey_hash(s) {
        HighLevelView::PayToWitnessPubkeyHash(s.subrange(2, 22))
    } else if is_pay_to_witness_script_hash(s) {
        HighLevelView::PayToWitnessScriptHash(s.subrange(2, 34))
    } else if is_pay_to_pubkey(s) {
        HighLevelView::PayToPubkey
    } else if s.len() >= 1 && s[0] == OP_RETURN {
        HighLevelView::OpReturn
    } else {
        HighLevelView::Other
    }
}

/// A borrowed view over the bytes of a script.
#[derive(Clone, Copy, Debug)]
pub struct Script<'a>(pub &'a [u8]);

impl<'a> View for Script<'a> {
    type V = Seq<u8>;

    open spec fn view(&self) -> Seq<u8> {
        self.0@
    }
}

impl<'a> Script<'a> {
    /// The script over `bytes`.
    pub fn new(bytes: &'a [u8]) -> (s: Script<'a>)
        ensures
            s@ == bytes@,
    {
        Script(bytes)
    }

    /// Classifies the script by the standard templates.
    pub fn to_highlevel(&self) -> (r: HighLevel<'a>)
        ensures
            r@ == classify(self@),
    {
        let s: &'a [u8] = self.0;
        let n: usize = s.len();
        if n == 25 && s[0] == OP_DUP && s[1] == OP_HASH160 && s[2] == 20 && s[23] == OP_EQUALVERIFY
            && s[24] == OP_CHECKSIG {
            HighLevel::PayToPubkeyHash(slice_subrange(s, 3, 23))
        } else if n == 23 && s[0] == OP_HASH160 && s[1] == 20 && s[22] == OP_EQUAL {
            HighLevel::PayToScriptHash(slice_subrange(s, 2, 22))
        } else if n == 22 && s[0] == OP_0 && s[1] == 20 {
            HighLevel::PayToWitnessPubkeyHash(slice_subrange(s, 2, 22))
        } else if n == 34 && s[0] == OP_0 && s[1] == 32 {
            HighLevel::PayToWitnessScriptHash(slice_subrange(s, 2, 34))
        } else if (n == 35 && s[0] == 33 && s[34] == OP_CHECKSIG) || (n == 67 && s[0] == 65
            && s[66] == OP_CHECKSIG) {
            HighLevel::PayToPubkey
        } else if n >= 1 && s[0] == OP_RETURN {
            HighLevel::OpReturn
        } else {
            HighLevel::Other
        }
    }
}

} // verus!
