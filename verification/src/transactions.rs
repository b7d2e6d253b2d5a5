//! Transactions as they are laid out in a block: a version, the inputs,
//! the outputs, witness data where the transaction has any, and a lock time.

use crate::buffer_operations::{read_slice, read_u32, read_u64, read_var_int};
use crate::buffer_operations::{spec_read_slice, spec_read_u32, spec_read_u64, spec_read_var_int};
use crate::error::{EofError, ParseError};
use crate::hash;
use crate::output_items::OutputItems;
use crate::script::Script;
use crate::visitors::trace::{is_tx_events, lookup, new_events, put_all, replay, settled, spent};
use crate::visitors::trace::{is_txs_events, lemma_replay_concat, lemma_txs_events_push};
use crate::visitors::trace::{lemma_replay_empty, lemma_replay_push, spent_by, Replay};
use crate::visitors::trace::lemma_txs_events_empty;
use crate::visitors::{BlockChainVisitor, Event};
use vstd::prelude::*;
use vstd::slice::slice_subrange;

verus! {

/// `rest` is what is left of `s` after some bytes were read off its front.
pub open spec fn is_suffix(rest: Seq<u8>, s: Seq<u8>) -> bool {
    rest.len() <= s.len() && rest == s.skip(s.len() - rest.len())
}

/// What is left of what is left of `c` is left of `c`.
pub proof fn lemma_suffix_trans(a: Seq<u8>, b: Seq<u8>, c: Seq<u8>)
    requires
        is_suffix(a, b),
        is_suffix(b, c),
    ensures
        is_suffix(a, c),
{
    assert(a =~= c.skip(c.len() - a.len()));
}

/// Skipping bytes leaves a suffix, and so does skipping none.
pub proof fn lemma_suffix_skip(s: Seq<u8>, n: int)
    requires
        0 <= n <= s.len(),
    ensures
        is_suffix(s.skip(n), s),
        is_suffix(s, s),
{
    assert(s.skip(n) =~= s.skip(s.len() - s.skip(n).len()));
    assert(s =~= s.skip(0));
}

/// What is read off the front of a compact-size integer is one, three, five
/// or nine bytes.
pub proof fn lemma_var_int_suffix(s: Seq<u8>)
    ensures
        match spec_read_var_int(s) {
            Some((_, rest)) => is_suffix(rest, s) && rest.len() < s.len(),
            None => true,
        },
{
    if s.len() >= 1 {
        let t = s.skip(1);
        lemma_suffix_skip(s, 1);
        if t.len() >= 2 {
            lemma_suffix_skip(t, 2);
            lemma_suffix_trans(t.skip(2), t, s);
        }
        if t.len() >= 4 {
            lemma_suffix_skip(t, 4);
            lemma_suffix_trans(t.skip(4), t, s);
        }
        if t.len() >= 8 {
            lemma_suffix_skip(t, 8);
            lemma_suffix_trans(t.skip(8), t, s);
        }
    }
}

/// An input of a transaction as contracts see it.
pub struct InputView {
    pub prev_hash: hash::Hash,
    pub prev_index: u32,
    pub script: Seq<u8>,
    pub sequence_no: u32,
}

/// An output of a transaction as contracts see it.
pub struct OutputView {
    pub value: u64,
    pub script: Seq<u8>,
}

/// A transaction as contracts see it.
pub struct TransactionView {
    pub version: u32,
    pub inputs: Seq<InputView>,
    pub outputs: Seq<OutputView>,
    pub lock_time: u32,
    pub txid: hash::Hash,
}

/// An input: the output that it spends, named by transaction and index,
/// and the script that unlocks it.
#[derive(Clone, Copy, Debug)]
pub struct TransactionInput<'a> {
    pub prev_hash: hash::Hash,
    pub prev_index: u32,
    pub script: Script<'a>,
    pub sequence_no: u32,
}

/// An output: a value in satoshis and the script that locks it.
#[derive(Clone, Copy, Debug)]
pub struct TransactionOutput<'a> {
    pub value: u64,
    pub script: Script<'a>,
}

/// A transaction with its inputs and outputs, and the hash that names it.
#[derive(Clone, Debug)]
pub struct Transaction<'a> {
    pub version: u32,
    pub inputs: Vec<TransactionInput<'a>>,
    pub outputs: Vec<TransactionOutput<'a>>,
    pub lock_time: u32,
    pub txid: hash::Hash,
}

impl<'a> View for TransactionInput<'a> {
    type V = InputView;

    open spec fn view(&self) -> InputView {
        InputView {
            prev_hash: self.prev_hash,
            prev_index: self.prev_index,
            script: self.script@,
            sequence_no: self.sequence_no,
        }
    }
}

impl<'a> View for TransactionOutput<'a> {
    type V = OutputView;

    open spec fn view(&self) -> OutputView {
        OutputView { value: self.value, script: self.script@ }
    }
}

/// The views of the inputs `v`.
pub open spec fn inputs_view<'a>(v: Seq<TransactionInput<'a>>) -> Seq<InputView> {
    v.map_values(|i: TransactionInput<'a>| i@)
}

/// The views of the outputs `v`.
pub open spec fn outputs_view<'a>(v: Seq<TransactionOutput<'a>>) -> Seq<OutputView> {
    v.map_values(|o: TransactionOutput<'a>| o@)
}

impl<'a> View for Transaction<'a> {
    type V = TransactionView;

    open spec fn view(&self) -> TransactionView {
        TransactionView {
            version: self.version,
            inputs: inputs_view(self.inputs@),
            outputs: outputs_view(self.outputs@),
            lock_time: self.lock_time,
            txid: self.txid,
        }
    }
}

/// What reading a script yields on `s`: a compact-size length and that
/// many bytes.
pub open spec fn spec_read_script(s: Seq<u8>) -> Option<(Seq<u8>, Seq<u8>)> {
    match spec_read_var_int(s) {
        None => None,
        Some((len, rest)) => spec_read_slice(rest, len as nat),
    }
}

/// What reading an input yields on `s`.
pub open spec fn spec_read_input(s: Seq<u8>) -> Option<(InputView, Seq<u8>)> {
    match hash::spec_read_hash(s) {
        None => None,
        Some((prev_hash, s1)) => match spec_read_u32(s1) {
            None => None,
            Some((prev_index, s2)) => match spec_read_script(s2) {
                None => None,
                Some((script, s3)) => match spec_read_u32(s3) {
                    None => None,
                    Some((sequence_no, s4)) => Some(
                        (InputView { prev_hash, prev_index, script, sequence_no }, s4),
                    ),
                },
            },
        },
    }
}

/// What reading an output yields on `s`.
pub open spec fn spec_read_output(s: Seq<u8>) -> Option<(OutputView, Seq<u8>)> {
    match spec_read_u64(s) {
        None => None,
        Some((value, s1)) => match spec_read_script(s1) {
            None => None,
            Some((script, s2)) => Some((OutputView { value, script }, s2)),
        },
    }
}

/// What reading `n` more inputs yields on `s`, behind the inputs `done`.
pub open spec fn spec_read_inputs_from(s: Seq<u8>, n: nat, done: Seq<InputView>) -> Option<
    (Seq<InputView>, Seq<u8>),
>
    decreases n,
{
    if n == 0 {
        Some((done, s))
    } else {
        match spec_read_input(s) {
            None => None,
            Some((input, rest)) => spec_read_inputs_from(rest, (n - 1) as nat, done.push(input)),
        }
    }
}

/// What reading `n` more outputs yields on `s`, behind the outputs `done`.
pub open spec fn spec_read_outputs_from(s: Seq<u8>, n: nat, done: Seq<OutputView>) -> Option<
    (Seq<OutputView>, Seq<u8>),
>
    decreases n,
{
    if n == 0 {
        Some((done, s))
    } else {
        match spec_read_output(s) {
            None => None,
            Some((output, rest)) => spec_read_outputs_from(
                rest,
                (n - 1) as nat,
                done.push(output),
            ),
        }
    }
}

/// What is left of `s` behind `n` witness items, each a compact-size
/// length and that many bytes.
pub open spec fn spec_skip_witness_items(s: Seq<u8>, n: nat) -> Option<Seq<u8>>
    decreases n,
{
    if n == 0 {
        Some(s)
    } else {
        match spec_read_script(s) {
            None => None,
            Some((_, rest)) => spec_skip_witness_items(rest, (n - 1) as nat),
        }
    }
}

/// What is left of `s` behind the witnesses of `n` inputs, each a
/// compact-size count and that many items.
pub open spec fn spec_skip_witnesses(s: Seq<u8>, n: nat) -> Option<Seq<u8>>
    decreases n,
{
    if n == 0 {
        Some(s)
    } else {
        match spec_read_var_int(s) {
            None => None,
            Some((items, s1)) => match spec_skip_witness_items(s1, items as nat) {
                None => None,
                Some(rest) => spec_skip_witnesses(rest, (n - 1) as nat),
            },
        }
    }
}

/// Whether the bytes behind the version announce witness data, and where
/// the inputs start: a zero byte is the marker, and the flag behind it
/// must be one.
pub open spec fn spec_read_marker(s: Seq<u8>) -> Result<(bool, Seq<u8>), ParseError> {
    if s.len() >= 1 && s[0] == 0 {
        if s.len() < 2 {
            Err(ParseError::Eof)
        } else if s[1] == 1 {
            Ok((true, s.skip(2)))
        } else {
            Err(ParseError::Invalid)
        }
    } else {
        Ok((false, s))
    }
}

/// What reading the inputs and outputs yields on `s`.
pub open spec fn spec_read_body(s: Seq<u8>) -> Option<(Seq<InputView>, Seq<OutputView>, Seq<u8>)> {
    match spec_read_var_int(s) {
        None => None,
        Some((n_in, s1)) => match spec_read_inputs_from(s1, n_in as nat, Seq::empty()) {
            None => None,
            Some((inputs, s2)) => match spec_read_var_int(s2) {
                None => None,
                Some((n_out, s3)) => match spec_read_outputs_from(s3, n_out as nat, Seq::empty()) {
                    None => None,
                    Some((outputs, s4)) => Some((inputs, outputs, s4)),
                },
            },
        },
    }
}

/// The bytes that name a transaction: its serialization without marker,
/// flag and witness data.
pub open spec fn txid_preimage(version: Seq<u8>, body: Seq<u8>, lock_time: Seq<u8>) -> Seq<u8> {
    version + body + lock_time
}

/// What reading a transaction yields on `s`: the transaction and what
/// follows it, or the error.
pub open spec fn spec_read_transaction(s: Seq<u8>) -> Result<(TransactionView, Seq<u8>), ParseError> {
    match spec_read_u32(s) {
        None => Err(ParseError::Eof),
        Some((version, after_version)) => match spec_read_marker(after_version) {
            Err(e) => Err(e),
            Ok((segwit, body_start)) => match spec_read_body(body_start) {
                None => Err(ParseError::Eof),
                Some((inputs, outputs, after_body)) => match (if segwit {
                    spec_skip_witnesses(after_body, inputs.len())
                } else {
                    Some(after_body)
                }) {
                    None => Err(ParseError::Eof),
                    Some(after_witness) => match spec_read_u32(after_witness) {
                        None => Err(ParseError::Eof),
                        Some((lock_time, rest)) => Ok(
                            (
                                TransactionView {
                                    version,
                                    inputs,
                                    outputs,
                                    lock_time,
                                    txid: hash::spec_double_sha256(
                                        txid_preimage(
                                            s.take(4),
                                            body_start.take(body_start.len() - after_body.len()),
                                            after_witness.take(4),
                                        ),
                                    ),
                                },
                                rest,
                            ),
                        ),
                    },
                },
            },
        },
    }
}

/// What reading `n` more transactions yields on `s`, behind the
/// transactions `done`.
pub open spec fn spec_read_transactions_from(
    s: Seq<u8>,
    n: nat,
    done: Seq<TransactionView>,
) -> Result<Seq<TransactionView>, ParseError>
    decreases n,
{
    if n == 0 {
        Ok(done)
    } else {
        match spec_read_transaction(s) {
            Err(e) => Err(e),
            Ok((tx, rest)) => spec_read_transactions_from(rest, (n - 1) as nat, done.push(tx)),
        }
    }
}

/// The transactions of the block `block`: a compact-size count behind the
/// 80-byte header, and that many transactions.
pub open spec fn spec_block_transactions(block: Seq<u8>) -> Result<Seq<TransactionView>, ParseError> {
    match spec_read_var_int(block.skip(80)) {
        None => Err(ParseError::Eof),
        Some((n, rest)) => spec_read_transactions_from(rest, n as nat, Seq::empty()),
    }
}

/// Reads a script: a compact-size length and that many bytes.
pub fn read_script<'a>(slice: &mut &'a [u8]) -> (r: Result<Script<'a>, EofError>)
    ensures
        match r {
            Ok(script) => spec_read_script(old(slice)@) == Some((script@, final(slice)@))
                && is_suffix(final(slice)@, old(slice)@),
            Err(_) => spec_read_script(old(slice)@).is_none(),
        },
{
    proof {
        lemma_var_int_suffix(slice@);
    }
    let len: u64 = match read_var_int(slice) {
        Ok(l) => l,
        Err(e) => {
            return Err(e);
        },
    };
    let left: usize = slice.len();
    if len > left as u64 {
        return Err(EofError);
    }
    let ghost middle = slice@;
    match read_slice(slice, len as usize) {
        Ok(bytes) => {
            proof {
                lemma_suffix_skip(middle, len as int);
                lemma_suffix_trans(slice@, middle, old(slice)@);
            }
            Ok(Script::new(bytes))
        },
        Err(e) => Err(e),
    }
}

impl<'a> TransactionInput<'a> {
    /// Reads one input.
    pub fn read(slice: &mut &'a [u8]) -> (r: Result<TransactionInput<'a>, EofError>)
        ensures
            match r {
                Ok(input) => spec_read_input(old(slice)@) == Some((input@, final(slice)@))
                    && is_suffix(final(slice)@, old(slice)@),
                Err(_) => spec_read_input(old(slice)@).is_none(),
            },
    {
        let ghost s0 = slice@;
        let prev_hash = match hash::Hash::read(slice) {
            Ok(h) => h,
            Err(e) => {
                return Err(e);
            },
        };
        let ghost s1 = slice@;
        let prev_index: u32 = match read_u32(slice) {
            Ok(v) => v,
            Err(e) => {
                return Err(e);
            },
        };
        let ghost s2 = slice@;
        let script = match read_script(slice) {
            Ok(s) => s,
            Err(e) => {
                return Err(e);
            },
        };
        let ghost s3 = slice@;
        let sequence_no: u32 = match read_u32(slice) {
            Ok(v) => v,
            Err(e) => {
                return Err(e);
            },
        };
        proof {
            lemma_suffix_skip(s0, 32);
            lemma_suffix_skip(s1, 4);
            lemma_suffix_skip(s3, 4);
            lemma_suffix_trans(s2, s1, s0);
            lemma_suffix_trans(s3, s2, s0);
            lemma_suffix_trans(slice@, s3, s0);
        }
        Ok(TransactionInput { prev_hash, prev_index, script, sequence_no })
    }

    /// Whether the input is the input of a coinbase, which spends nothing.
    pub fn is_coinbase(&self) -> (r: bool)
        ensures
            r == (self.prev_hash == hash::zero_hash()),
    {
        self.prev_hash.is_zero()
    }
}

impl<'a> TransactionOutput<'a> {
    /// Reads one output.
    pub fn read(slice: &mut &'a [u8]) -> (r: Result<TransactionOutput<'a>, EofError>)
        ensures
            match r {
                Ok(output) => spec_read_output(old(slice)@) == Some((output@, final(slice)@))
                    && is_suffix(final(slice)@, old(slice)@),
                Err(_) => spec_read_output(old(slice)@).is_none(),
            },
    {
        let ghost s0 = slice@;
        let value: u64 = match read_u64(slice) {
            Ok(v) => v,
            Err(e) => {
                return Err(e);
            },
        };
        let ghost s1 = slice@;
        let script = match read_script(slice) {
            Ok(s) => s,
            Err(e) => {
                return Err(e);
            },
        };
        proof {
            lemma_suffix_skip(s0, 8);
            lemma_suffix_trans(slice@, s1, s0);
        }
        Ok(TransactionOutput { value, script })
    }
}

/// Reads `count` inputs.
fn read_inputs<'a>(slice: &mut &'a [u8], count: u64) -> (r: Result<
    Vec<TransactionInput<'a>>,
    EofError,
>)
    ensures
        match r {
            Ok(inputs) => spec_read_inputs_from(old(slice)@, count as nat, Seq::empty()) == Some(
                (inputs_view(inputs@), final(slice)@),
            ) && is_suffix(final(slice)@, old(slice)@),
            Err(_) => spec_read_inputs_from(old(slice)@, count as nat, Seq::empty()).is_none(),
        },
{
    let mut inputs: Vec<TransactionInput<'a>> = Vec::new();
    let mut i: u64 = 0;
    proof {
        lemma_suffix_skip(slice@, 0);
        assert(inputs_view(inputs@) =~= Seq::empty());
    }
    while i < count
        invariant
            i <= count,
            is_suffix(slice@, old(slice)@),
            spec_read_inputs_from(slice@, (count - i) as nat, inputs_view(inputs@))
                == spec_read_inputs_from(old(slice)@, count as nat, Seq::empty()),
        decreases count - i,
    {
        let ghost before = slice@;
        let ghost done = inputs@;
        let input = match TransactionInput::read(slice) {
            Ok(input) => input,
            Err(e) => {
                return Err(e);
            },
        };
        inputs.push(input);
        proof {
            lemma_suffix_trans(slice@, before, old(slice)@);
            assert(inputs_view(inputs@) =~= inputs_view(done).push(input@));
        }
        i = i + 1;
    }
    Ok(inputs)
}

/// Reads `count` outputs.
fn read_outputs<'a>(slice: &mut &'a [u8], count: u64) -> (r: Result<
    Vec<TransactionOutput<'a>>,
    EofError,
>)
    ensures
        match r {
            Ok(outputs) => spec_read_outputs_from(old(slice)@, count as nat, Seq::empty()) == Some(
                (outputs_view(outputs@), final(slice)@),
            ) && is_suffix(final(slice)@, old(slice)@),
            Err(_) => spec_read_outputs_from(old(slice)@, count as nat, Seq::empty()).is_none(),
        },
{
    let mut outputs: Vec<TransactionOutput<'a>> = Vec::new();
    let mut i: u64 = 0;
    proof {
        lemma_suffix_skip(slice@, 0);
        assert(outputs_view(outputs@) =~= Seq::empty());
    }
    while i < count
        invariant
            i <= count,
            is_suffix(slice@, old(slice)@),
            spec_read_outputs_from(slice@, (count - i) as nat, outputs_view(outputs@))
                == spec_read_outputs_from(old(slice)@, count as nat, Seq::empty()),
        decreases count - i,
    {
        let ghost before = slice@;
        let ghost done = outputs@;
        let output = match TransactionOutput::read(slice) {
            Ok(output) => output,
            Err(e) => {
                return Err(e);
            },
        };
        outputs.push(output);
        proof {
            lemma_suffix_trans(slice@, before, old(slice)@);
            assert(outputs_view(outputs@) =~= outputs_view(done).push(output@));
        }
        i = i + 1;
    }
    Ok(outputs)
}

/// Skips `count` witness items.
fn skip_witness_items<'a>(slice: &mut &'a [u8], count: u64) -> (r: Result<(), EofError>)
    ensures
        match r {
            Ok(_) => spec_skip_witness_items(old(slice)@, count as nat) == Some(final(slice)@),
            Err(_) => spec_skip_witness_items(old(slice)@, count as nat).is_none(),
        },
{
    let mut i: u64 = 0;
    while i < count
        invariant
            i <= count,
            spec_skip_witness_items(slice@, (count - i) as nat) == spec_skip_witness_items(
                old(slice)@,
                count as nat,
            ),
        decreases count - i,
    {
        match read_script(slice) {
            Ok(_) => {},
            Err(e) => {
                return Err(e);
            },
        }
        i = i + 1;
    }
    Ok(())
}

/// Skips the witnesses of `count` inputs.
fn skip_witnesses<'a>(slice: &mut &'a [u8], count: usize) -> (r: Result<(), EofError>)
    ensures
        match r {
            Ok(_) => spec_skip_witnesses(old(slice)@, count as nat) == Some(final(slice)@),
            Err(_) => spec_skip_witnesses(old(slice)@, count as nat).is_none(),
        },
{
    let mut i: usize = 0;
    while i < count
        invariant
            i <= count,
            spec_skip_witnesses(slice@, (count - i) as nat) == spec_skip_witnesses(
                old(slice)@,
                count as nat,
            ),
        decreases count - i,
    {
        let items: u64 = match read_var_int(slice) {
            Ok(n) => n,
            Err(e) => {
                return Err(e);
            },
        };
        match skip_witness_items(slice, items) {
            Ok(_) => {},
            Err(e) => {
                return Err(e);
            },
        }
        i = i + 1;
    }
    Ok(())
}

/// Reads the marker and flag of witness data, if they are there.
fn read_marker<'a>(slice: &mut &'a [u8]) -> (r: Result<bool, ParseError>)
    ensures
        match r {
            Ok(segwit) => spec_read_marker(old(slice)@) == Ok::<(bool, Seq<u8>), ParseError>(
                (segwit, final(slice)@),
            ),
            Err(e) => spec_read_marker(old(slice)@) == Err::<(bool, Seq<u8>), ParseError>(e),
        },
{
    if slice.len() >= 1 && slice[0] == 0 {
        if slice.len() < 2 {
            Err(ParseError::Eof)
        } else if slice[1] == 1 {
            *slice = slice_subrange(*slice, 2, slice.len());
            Ok(true)
        } else {
            Err(ParseError::Invalid)
        }
    } else {
        Ok(false)
    }
}

/// Reads the inputs and the outputs.
fn read_body<'a>(slice: &mut &'a [u8]) -> (r: Result<
    (Vec<TransactionInput<'a>>, Vec<TransactionOutput<'a>>),
    EofError,
>)
    ensures
        match r {
            Ok((inputs, outputs)) => spec_read_body(old(slice)@) == Some(
                (inputs_view(inputs@), outputs_view(outputs@), final(slice)@),
            ) && is_suffix(final(slice)@, old(slice)@),
            Err(_) => spec_read_body(old(slice)@).is_none(),
        },
{
    let ghost s0 = slice@;
    proof {
        lemma_var_int_suffix(s0);
    }
    let n_in: u64 = match read_var_int(slice) {
        Ok(n) => n,
        Err(e) => {
            return Err(e);
        },
    };
    let ghost s1 = slice@;
    let inputs = match read_inputs(slice, n_in) {
        Ok(v) => v,
        Err(e) => {
            return Err(e);
        },
    };
    let ghost s2 = slice@;
    proof {
        lemma_var_int_suffix(s2);
    }
    let n_out: u64 = match read_var_int(slice) {
        Ok(n) => n,
        Err(e) => {
            return Err(e);
        },
    };
    let ghost s3 = slice@;
    let outputs = match read_outputs(slice, n_out) {
        Ok(v) => v,
        Err(e) => {
            return Err(e);
        },
    };
    proof {
        lemma_suffix_trans(s2, s1, s0);
        lemma_suffix_trans(s3, s2, s0);
        lemma_suffix_trans(slice@, s3, s0);
    }
    Ok((inputs, outputs))
}

impl<'a> Transaction<'a> {
    /// Reads one transaction and computes the hash that names it.
    pub fn read(slice: &mut &'a [u8]) -> (r: Result<Transaction<'a>, ParseError>)
        ensures
            match r {
                Ok(tx) => spec_read_transaction(old(slice)@) == Ok::<
                    (TransactionView, Seq<u8>),
                    ParseError,
                >((tx@, final(slice)@)),
                Err(e) => spec_read_transaction(old(slice)@) == Err::<
                    (TransactionView, Seq<u8>),
                    ParseError,
                >(e),
            },
    {
        let start: &'a [u8] = *slice;
        let version: u32 = match read_u32(slice) {
            Ok(v) => v,
            Err(_) => {
                return Err(ParseError::Eof);
            },
        };
        let segwit: bool = match read_marker(slice) {
            Ok(s) => s,
            Err(e) => {
                return Err(e);
            },
        };
        let body_start: &'a [u8] = *slice;
        let (inputs, outputs) = match read_body(slice) {
            Ok(b) => b,
            Err(_) => {
                return Err(ParseError::Eof);
            },
        };
        let body_len: usize = body_start.len() - slice.len();
        if segwit {
            match skip_witnesses(slice, inputs.len()) {
                Ok(_) => {},
                Err(_) => {
                    return Err(ParseError::Eof);
                },
            }
        }
        let lock_start: &'a [u8] = *slice;
        let lock_time: u32 = match read_u32(slice) {
            Ok(v) => v,
            Err(_) => {
                return Err(ParseError::Eof);
            },
        };
        let mut preimage: Vec<u8> = Vec::new();
        preimage.extend_from_slice(slice_subrange(start, 0, 4));
        preimage.extend_from_slice(slice_subrange(body_start, 0, body_len));
        preimage.extend_from_slice(slice_subrange(lock_start, 0, 4));
        proof {
            assert(inputs_view(inputs@).len() == inputs@.len());
            assert(preimage@ =~= txid_preimage(
                start@.take(4),
                body_start@.take(body_len as int),
                lock_start@.take(4),
            ));
        }
        let txid = hash::double_sha256(preimage.as_slice());
        Ok(Transaction { version, inputs, outputs, lock_time, txid })
    }
}

/// Whether one of the first `n` inputs spends the output `p`.
pub open spec fn spends_among(inputs: Seq<InputView>, n: int, p: (hash::Hash, nat)) -> bool {
    exists|i: int|
        0 <= i < n && i < inputs.len() && (#[trigger] inputs[i]).prev_hash == p.0
            && inputs[i].prev_index == p.1
}

/// Whether the transaction `tx` spends the output `p`.
pub open spec fn spends(tx: TransactionView, p: (hash::Hash, nat)) -> bool {
    spends_among(tx.inputs, tx.inputs.len() as int, p)
}

/// Whether one of the transactions `txs` has the hash `p.0`, so that the
/// output `p` is one of its own.
pub open spec fn made_by(txs: Seq<TransactionView>, p: (hash::Hash, nat)) -> bool {
    exists|i: int| 0 <= i < txs.len() && (#[trigger] txs[i]).txid == p.0
}

/// Whether one of the transactions `txs` spends the output `p`.
pub open spec fn spent_in(txs: Seq<TransactionView>, p: (hash::Hash, nat)) -> bool {
    exists|i: int| 0 <= i < txs.len() && spends(#[trigger] txs[i], p)
}

/// What transactions do to the table of outputs, whatever the visitor
/// does: an output that is not one of the transactions' own is in the table
/// afterwards exactly if it was before and none of them spent it, with the
/// same item.
#[verifier::opaque]
pub open spec fn kept<T>(
    before: Map<(hash::Hash, nat), T>,
    after: Map<(hash::Hash, nat), T>,
    txs: Seq<TransactionView>,
) -> bool {
    &&& forall|p: (hash::Hash, nat)|
        !made_by(txs, p) ==> (#[trigger] after.contains_key(p) <==> before.contains_key(p)
            && !spent_in(txs, p))
    &&& forall|p: (hash::Hash, nat)|
        !made_by(txs, p) && #[trigger] after.contains_key(p) ==> after[p] == before[p]
}

/// What one transaction does to the table of outputs, whatever the
/// visitor does: the outputs of other transactions stay in the table
/// exactly when this transaction does not spend them, with the same item.
#[verifier::opaque]
pub open spec fn kept_by<T>(
    before: Map<(hash::Hash, nat), T>,
    after: Map<(hash::Hash, nat), T>,
    tx: TransactionView,
) -> bool {
    &&& forall|p: (hash::Hash, nat)|
        p.0 != tx.txid ==> (#[trigger] after.contains_key(p) <==> before.contains_key(p)
            && !spends(tx, p))
    &&& forall|p: (hash::Hash, nat)|
        p.0 != tx.txid && #[trigger] after.contains_key(p) ==> after[p] == before[p]
}

/// In a log of calls that goes on from another, the calls since the start
/// are those up to the shorter log and those that the longer log adds.
pub proof fn lemma_trace_grows<T>(
    start: Seq<Event<T>>,
    seg: Seq<Event<T>>,
    before: Seq<Event<T>>,
    after: Seq<Event<T>>,
)
    requires
        before == start + seg,
        before.is_prefix_of(after),
    ensures
        after == start + (seg + new_events(before, after)),
        new_events(start, after) == seg + new_events(before, after),
{
    let more = new_events(before, after);
    assert forall|i: int| 0 <= i < before.len() implies after[i] == before[i] by {
        assert(after.subrange(0, before.len() as int)[i] == after[i]);
    }
    assert(after =~= start + (seg + more));
    assert(new_events(start, after) =~= seg + more);
}

/// No transactions do nothing to the table.
pub proof fn lemma_kept_none<T>(table: Map<(hash::Hash, nat), T>)
    ensures
        kept(table, table, Seq::<TransactionView>::empty()),
{
    reveal(kept);
}

/// What holds of the table over some transactions holds over one more,
/// which leaves the outputs of others in the table exactly when it does
/// not spend them.
pub proof fn lemma_kept_push<T>(
    start: Map<(hash::Hash, nat), T>,
    before: Map<(hash::Hash, nat), T>,
    after: Map<(hash::Hash, nat), T>,
    txs: Seq<TransactionView>,
    tx: TransactionView,
)
    requires
        kept(start, before, txs),
        kept_by(before, after, tx),
    ensures
        kept(start, after, txs.push(tx)),
{
    reveal(kept);
    reveal(kept_by);
    let more = txs.push(tx);
    assert forall|p: (hash::Hash, nat)| !made_by(more, p) implies (#[trigger] after.contains_key(p)
        <==> start.contains_key(p) && !spent_in(more, p)) by {
        lemma_made_spent_push(txs, tx, p);
        assert(before.contains_key(p) <==> start.contains_key(p) && !spent_in(txs, p));
    }
    assert forall|p: (hash::Hash, nat)|
        !made_by(more, p) && #[trigger] after.contains_key(p) implies after[p] == start[p] by {
        lemma_made_spent_push(txs, tx, p);
        assert(before.contains_key(p));
    }
}

/// With one more transaction, an output is made or spent if it was before
/// or if that transaction makes or spends it.
pub proof fn lemma_made_spent_push(txs: Seq<TransactionView>, tx: TransactionView, p: (hash::Hash, nat))
    ensures
        made_by(txs.push(tx), p) <==> made_by(txs, p) || tx.txid == p.0,
        spent_in(txs.push(tx), p) <==> spent_in(txs, p) || spends(tx, p),
{
    let more = txs.push(tx);
    assert(more[txs.len() as int] == tx);
    if made_by(txs, p) {
        let i = choose|i: int| 0 <= i < txs.len() && (#[trigger] txs[i]).txid == p.0;
        assert(more[i] == txs[i]);
    }
    if spent_in(txs, p) {
        let i = choose|i: int| 0 <= i < txs.len() && spends(#[trigger] txs[i], p);
        assert(more[i] == txs[i]);
    }
    if made_by(more, p) {
        let i = choose|i: int| 0 <= i < more.len() && (#[trigger] more[i]).txid == p.0;
        if i < txs.len() {
            assert(more[i] == txs[i]);
        }
    }
    if spent_in(more, p) {
        let i = choose|i: int| 0 <= i < more.len() && spends(#[trigger] more[i], p);
        if i < txs.len() {
            assert(more[i] == txs[i]);
        }
    }
}

impl<'a> Transaction<'a> {
    /// Hands the transaction to the visitor: its begin, each input with
    /// what the table of outputs holds for the output that it spends, which
    /// leaves the table, each output, whose item, if the visitor returns
    /// one, enters the table under this transaction's hash and the output's
    /// index, and its end.
    ///
    /// The visitor receives exactly these calls, in this order, and the
    /// table afterwards is the one that they give. In particular the
    /// outputs of other transactions stay in the table exactly when this
    /// transaction does not spend them.
    pub fn walk<V: BlockChainVisitor<'a>>(
        self,
        visitor: &mut V,
        block_item: &mut V::BlockItem,
        output_items: &mut OutputItems<V::OutputItem>,
    )
        requires
            old(output_items).wf(),
        ensures
            final(output_items).wf(),
            old(visitor).trace().is_prefix_of(final(visitor).trace()),
            is_tx_events(
                new_events(old(visitor).trace(), final(visitor).trace()),
                self@,
                old(output_items)@,
            ),
            replay(
                settled(old(output_items)@),
                new_events(old(visitor).trace(), final(visitor).trace()),
            ) == settled(final(output_items)@),
            kept_by(old(output_items)@, final(output_items)@, self@),
    {
        let ghost start = visitor.trace();
        let ghost table = output_items@;
        let ghost tx = self@;
        let ghost inputs = self@.inputs;
        let mut tx_item = visitor.visit_transaction_begin(block_item);
        let ghost mut seg: Seq<Event<V::OutputItem>> = seq![Event::TransactionBegin];
        proof {
            assert(visitor.trace() =~= start + seg);
            lemma_replay_empty(settled(table));
            lemma_replay_push(settled(table), Seq::empty(), Event::TransactionBegin);
            assert(Seq::<Event<V::OutputItem>>::empty().push(Event::TransactionBegin) =~= seg);
        }
        let mut i: usize = 0;
        while i < self.inputs.len()
            invariant
                i <= self.inputs@.len(),
                inputs == inputs_view(self.inputs@),
                output_items.wf(),
                visitor.trace() == start + seg,
                seg.len() == 1 + i,
                seg[0] == Event::<V::OutputItem>::TransactionBegin,
                forall|j: int|
                    0 <= j < i ==> #[trigger] seg[1 + j] == (Event::Input {
                        input: inputs[j],
                        output_item: lookup(spent(table, inputs, j as nat), spent_by(inputs[j])),
                    }),
                output_items@ == spent(table, inputs, i as nat),
                replay(settled(table), seg) == settled(output_items@),
                forall|p: (hash::Hash, nat)| #[trigger]
                    output_items@.contains_key(p) <==> old(output_items)@.contains_key(p)
                        && !spends_among(inputs, i as int, p),
                forall|p: (hash::Hash, nat)| #[trigger]
                    output_items@.contains_key(p) ==> output_items@[p] == old(output_items)@[p],
            decreases self.inputs@.len() - i,
        {
            let input: TransactionInput<'a> = self.inputs[i];
            let ghost before = output_items@;
            let output_item = output_items.take(&input.prev_hash, input.prev_index);
            let ghost event = Event::Input { input: input@, output_item };
            let ghost earlier = seg;
            proof {
                let spent = (input.prev_hash, input.prev_index as nat);
                assert(inputs[i as int] == input@);
                assert forall|p: (hash::Hash, nat)| #[trigger]
                    output_items@.contains_key(p) <==> old(output_items)@.contains_key(p)
                        && !spends_among(inputs, i + 1, p) by {
                    if spends_among(inputs, i + 1, p) {
                        let j = choose|j: int|
                            0 <= j < i + 1 && j < inputs.len() && (#[trigger] inputs[j]).prev_hash
                                == p.0 && inputs[j].prev_index == p.1;
                        if j < i {
                            assert(spends_among(inputs, i as int, p));
                        } else {
                            assert(p == spent);
                        }
                    } else {
                        assert(!spends_among(inputs, i as int, p));
                        assert(p != spent);
                    }
                }
            }
            visitor.visit_transaction_input(input, block_item, &mut tx_item, output_item);
            proof {
                seg = seg.push(event);
                assert(visitor.trace() =~= start + seg);
                lemma_replay_push(settled(table), earlier, event);
                assert forall|j: int| 0 <= j < i + 1 implies #[trigger] seg[1 + j] == (Event::Input {
                    input: inputs[j],
                    output_item: lookup(spent(table, inputs, j as nat), spent_by(inputs[j])),
                }) by {
                    if j < i {
                        assert(seg[1 + j] == earlier[1 + j]);
                    }
                }
            }
            i = i + 1;
        }
        let ghost spent_items = output_items@;
        let ghost mut returned: Seq<Option<V::OutputItem>> = Seq::empty();
        let mut k: usize = 0;
        while k < self.outputs.len()
            invariant
                k <= self.outputs@.len(),
                tx == self@,
                inputs == tx.inputs,
                output_items.wf(),
                visitor.trace() == start + seg,
                seg.len() == 1 + inputs.len() + k,
                seg[0] == Event::<V::OutputItem>::TransactionBegin,
                forall|j: int|
                    0 <= j < inputs.len() ==> #[trigger] seg[1 + j] == (Event::Input {
                        input: inputs[j],
                        output_item: lookup(spent(table, inputs, j as nat), spent_by(inputs[j])),
                    }),
                forall|q: int|
                    0 <= q < k ==> (#[trigger] seg[1 + inputs.len() + q]) is Output && seg[1
                        + inputs.len() + q]->output == tx.outputs[q],
                returned.len() == k,
                replay(settled(table), seg) == (Replay { table: spent_items, pending: returned }),
                output_items@ == put_all(spent_items, self.txid, returned),
                forall|p: (hash::Hash, nat)|
                    p.0 != self.txid ==> (#[trigger] output_items@.contains_key(p)
                        <==> spent_items.contains_key(p)),
                forall|p: (hash::Hash, nat)|
                    p.0 != self.txid && #[trigger] output_items@.contains_key(p)
                        ==> output_items@[p] == spent_items[p],
            decreases self.outputs@.len() - k,
        {
            let output: TransactionOutput<'a> = self.outputs[k];
            let ghost earlier = seg;
            let ghost items = returned;
            let item = visitor.visit_transaction_output(output, block_item, &mut tx_item);
            let ghost event = Event::Output { output: output@, item };
            proof {
                seg = seg.push(event);
                returned = returned.push(item);
                assert(visitor.trace() =~= start + seg);
                lemma_replay_push(settled(table), earlier, event);
                assert(returned.drop_last() =~= items);
                assert(tx.outputs[k as int] == output@);
                assert forall|j: int| 0 <= j < inputs.len() implies #[trigger] seg[1 + j] == (
                Event::Input {
                    input: inputs[j],
                    output_item: lookup(spent(table, inputs, j as nat), spent_by(inputs[j])),
                }) by {
                    assert(seg[1 + j] == earlier[1 + j]);
                }
                assert forall|q: int| 0 <= q < k + 1 implies (#[trigger] seg[1 + inputs.len() + q]) is Output
                    && seg[1 + inputs.len() + q]->output == tx.outputs[q] by {
                    if q < k {
                        assert(seg[1 + inputs.len() + q] == earlier[1 + inputs.len() + q]);
                    }
                }
            }
            match item {
                Some(item) => {
                    output_items.put(self.txid, k, item);
                },
                None => {},
            }
            k = k + 1;
        }
        let ghost event = Event::TransactionEnd { tx };
        let ghost earlier = seg;
        visitor.visit_transaction_end(self, block_item, tx_item);
        proof {
            seg = seg.push(event);
            reveal(is_tx_events);
            reveal(kept_by);
            assert(visitor.trace() =~= start + seg);
            lemma_replay_push(settled(table), earlier, event);
            assert(new_events(start, visitor.trace()) =~= seg);
            assert forall|j: int| 0 <= j < inputs.len() implies #[trigger] seg[1 + j] == (Event::Input {
                input: inputs[j],
                output_item: lookup(spent(table, inputs, j as nat), spent_by(inputs[j])),
            }) by {
                assert(seg[1 + j] == earlier[1 + j]);
            }
            assert forall|q: int| 0 <= q < tx.outputs.len() implies (#[trigger] seg[1
                + inputs.len() + q]) is Output && seg[1 + inputs.len() + q]->output
                == tx.outputs[q] by {
                assert(seg[1 + inputs.len() + q] == earlier[1 + inputs.len() + q]);
            }
        }
    }
}

/// The transactions of a block, not yet read: their number and the bytes
/// that hold them.
#[derive(Clone, Copy, Debug)]
pub struct Transactions<'a> {
    pub count: u64,
    pub slice: &'a [u8],
}

impl<'a> Transactions<'a> {
    /// Reads the number of transactions off the front of `slice`.
    pub fn new(slice: &'a [u8]) -> (r: Result<Transactions<'a>, EofError>)
        ensures
            match r {
                Ok(txs) => spec_read_var_int(slice@) == Some((txs.count, txs.slice@)),
                Err(_) => spec_read_var_int(slice@).is_none(),
            },
    {
        let mut cursor = slice;
        match read_var_int(&mut cursor) {
            Ok(count) => Ok(Transactions { count, slice: cursor }),
            Err(e) => Err(e),
        }
    }

    /// Reads the transactions one by one and hands each to the visitor.
    /// It fails exactly when one of them cannot be read, with that error;
    /// the transactions before that one have then been visited.
    ///
    /// On success the visitor has received exactly the calls of the
    /// transactions, one transaction after the other, and the table is the
    /// one that they give. In particular an output that is not one of
    /// these transactions' own is in the table afterwards exactly if it
    /// was before and none of them spent it.
    pub fn walk<V: BlockChainVisitor<'a>>(
        self,
        visitor: &mut V,
        block_item: &mut V::BlockItem,
        output_items: &mut OutputItems<V::OutputItem>,
    ) -> (r: Result<(), ParseError>)
        requires
            old(output_items).wf(),
        ensures
            final(output_items).wf(),
            match r {
                Ok(_) => {
                    &&& self.parsed() is Ok
                    &&& old(visitor).trace().is_prefix_of(final(visitor).trace())
                    &&& is_txs_events(
                        new_events(old(visitor).trace(), final(visitor).trace()),
                        self.parsed()->Ok_0,
                        old(output_items)@,
                    )
                    &&& replay(
                        settled(old(output_items)@),
                        new_events(old(visitor).trace(), final(visitor).trace()),
                    ) == settled(final(output_items)@)
                    &&& kept(old(output_items)@, final(output_items)@, self.parsed()->Ok_0)
                    &&& forall|p: (hash::Hash, nat)|
                        !made_by(self.parsed()->Ok_0, p) ==> (#[trigger] final(output_items)@.contains_key(p) <==> old(output_items)@.contains_key(p) && !spent_in(
                            self.parsed()->Ok_0,
                            p,
                        ))
                    &&& forall|p: (hash::Hash, nat)|
                        !made_by(self.parsed()->Ok_0, p) && #[trigger] final(output_items)@.contains_key(p) ==> final(output_items)@[p] == old(output_items)@[p]
                },
                Err(e) => self.parsed() == Err::<Seq<TransactionView>, ParseError>(e),
            },
    {
        let ghost start = visitor.trace();
        let ghost table = output_items@;
        let mut slice: &'a [u8] = self.slice;
        let ghost mut done: Seq<TransactionView> = Seq::empty();
        let ghost mut seg: Seq<Event<V::OutputItem>> = Seq::empty();
        let mut i: u64 = 0;
        proof {
            assert(visitor.trace() =~= start + seg);
            lemma_txs_events_empty::<V::OutputItem>(table);
            lemma_replay_empty(settled(table));
            lemma_kept_none(table);
        }
        while i < self.count
            invariant
                i <= self.count,
                output_items.wf(),
                spec_read_transactions_from(slice@, (self.count - i) as nat, done)
                    == self.parsed(),
                visitor.trace() == start + seg,
                is_txs_events(seg, done, table),
                replay(settled(table), seg) == settled(output_items@),
                table == old(output_items)@,
                kept(table, output_items@, done),
            decreases self.count - i,
        {
            let tx = match Transaction::read(&mut slice) {
                Ok(tx) => tx,
                Err(e) => {
                    return Err(e);
                },
            };
            let ghost before = output_items@;
            let ghost trace_before = visitor.trace();
            let ghost earlier = done;
            let ghost this = tx@;
            proof {
                done = done.push(tx@);
            }
            tx.walk(visitor, block_item, output_items);
            proof {
                let more = new_events(trace_before, visitor.trace());
                lemma_trace_grows(start, seg, trace_before, visitor.trace());
                lemma_txs_events_push(seg, earlier, table, more, this);
                lemma_replay_concat(settled(table), seg, more);
                lemma_kept_push(table, before, output_items@, earlier, this);
                seg = seg + more;
            }
            i = i + 1;
        }
        proof {
            assert(new_events(start, visitor.trace()) =~= seg);
            reveal(kept);
        }
        Ok(())
    }

    /// What reading all the transactions yields.
    pub open spec fn parsed(self) -> Result<Seq<TransactionView>, ParseError> {
        spec_read_transactions_from(self.slice@, self.count as nat, Seq::empty())
    }
}

} // verus!
