//! Partially signed transactions: what has to hold of one before it is sent to
//! the device, and of the one that comes back.

use crate::error::{viewed, ErrorView, JadeError};
use crate::text::same_text;
use vstd::prelude::*;

verus! {

/// An output that an input spends.
#[derive(Debug, PartialEq, Eq)]
pub struct SpentOutput {
    pub value: u64,
    pub script: Vec<u8>,
}

/// What an input says about the coin that it spends and the keys for it.
#[derive(Debug, PartialEq, Eq)]
pub struct CoinFacts {
    /// The master fingerprints of the keys that are listed for it, in
    /// hexadecimal.
    pub key_origins: Vec<String>,
    /// The same for the taproot keys.
    pub taproot_origins: Vec<String>,
    /// The id of the previous transaction, where that is included. Witness data
    /// does not count toward an id.
    pub previous: Option<Vec<u8>>,
    /// The output that is spent, where that is included.
    pub witness_utxo: Option<SpentOutput>,
}

/// The places of an input where a signature can stand.
#[derive(Debug, PartialEq, Eq)]
pub struct SignatureMarks {
    /// How many keys have signed.
    pub partial_sigs: usize,
    /// How many taproot scripts were signed for.
    pub tap_script_sigs: usize,
    pub tap_key_sig: Option<Vec<u8>>,
    pub final_script_sig: Option<Vec<u8>>,
    pub final_script_witness: Option<Vec<u8>>,
}

/// What the checks look at in one input of a transaction.
#[derive(Debug, PartialEq, Eq)]
pub struct InputFacts {
    pub coin: CoinFacts,
    pub marks: SignatureMarks,
}

/// What the checks look at in a transaction.
#[derive(Debug, PartialEq, Eq)]
pub struct PsbtFacts {
    /// The id of the transaction without signatures.
    pub unsigned_txid: Vec<u8>,
    pub inputs: Vec<InputFacts>,
}

/// The mathematical value of [`CoinFacts`].
pub struct CoinView {
    pub key_origins: Seq<Seq<char>>,
    pub taproot_origins: Seq<Seq<char>>,
    pub previous: Option<Seq<u8>>,
    pub witness_utxo: Option<(u64, Seq<u8>)>,
}

/// The mathematical value of [`SignatureMarks`].
pub struct MarksView {
    pub partial_sigs: usize,
    pub tap_script_sigs: usize,
    pub tap_key_sig: Option<Seq<u8>>,
    pub final_script_sig: Option<Seq<u8>>,
    pub final_script_witness: Option<Seq<u8>>,
}

/// The mathematical value of [`InputFacts`].
pub struct InputView {
    pub coin: CoinView,
    pub marks: MarksView,
}

/// The mathematical value of [`PsbtFacts`].
pub struct PsbtView {
    pub unsigned_txid: Seq<u8>,
    pub inputs: Seq<InputView>,
}

impl View for SpentOutput {
    type V = (u64, Seq<u8>);

    open spec fn view(&self) -> (u64, Seq<u8>) {
        (self.value, self.script@)
    }
}

/// The bytes that may be there.
pub open spec fn bytes_view(bytes: Option<Vec<u8>>) -> Option<Seq<u8>> {
    match bytes {
        Some(b) => Some(b@),
        None => None,
    }
}

impl View for CoinFacts {
    type V = CoinView;

    open spec fn view(&self) -> CoinView {
        CoinView {
            key_origins: Seq::new(self.key_origins@.len(), |i: int| self.key_origins@[i]@),
            taproot_origins: Seq::new(
                self.taproot_origins@.len(),
                |i: int| self.taproot_origins@[i]@,
            ),
            previous: bytes_view(self.previous),
            witness_utxo: match self.witness_utxo {
                Some(output) => Some(output@),
                None => None,
            },
        }
    }
}

impl View for SignatureMarks {
    type V = MarksView;

    open spec fn view(&self) -> MarksView {
        MarksView {
            partial_sigs: self.partial_sigs,
            tap_script_sigs: self.tap_script_sigs,
            tap_key_sig: bytes_view(self.tap_key_sig),
            final_script_sig: bytes_view(self.final_script_sig),
            final_script_witness: bytes_view(self.final_script_witness),
        }
    }
}

impl View for InputFacts {
    type V = InputView;

    open spec fn view(&self) -> InputView {
        InputView { coin: self.coin@, marks: self.marks@ }
    }
}

impl View for PsbtFacts {
    type V = PsbtView;

    open spec fn view(&self) -> PsbtView {
        PsbtView {
            unsigned_txid: self.unsigned_txid@,
            inputs: Seq::new(self.inputs@.len(), |i: int| self.inputs@[i]@),
        }
    }
}

// ----------------------------------------------------------------------------
// Transactions of rust-bitcoin
// ----------------------------------------------------------------------------
/// A transaction of rust-bitcoin's own type.
#[verifier::external_type_specification]
#[verifier::external_body]
pub struct ExPsbt(bitcoin::Psbt);

/// An input of rust-bitcoin's own type.
#[verifier::external_type_specification]
#[verifier::external_body]
pub struct ExInput(bitcoin::psbt::Input);

/// What a transaction of rust-bitcoin's own type holds.
pub uninterp spec fn psbt_view(psbt: bitcoin::Psbt) -> PsbtView;

/// What an input of rust-bitcoin's own type holds.
pub uninterp spec fn input_view(input: bitcoin::psbt::Input) -> InputView;

/// The transaction that `bitcoin::Psbt::deserialize` reads from these bytes, or
/// nothing if it refuses them.
pub uninterp spec fn psbt_decoded(bytes: Seq<u8>) -> Option<PsbtView>;

/// Reads a transaction with `bitcoin::Psbt::deserialize`.
///
/// Taken on trust: the outcome depends on the bytes alone. Which bytes are
/// which transaction is left unsaid.
#[verifier::external_body]
fn read_psbt(bytes: &[u8]) -> (r: Option<bitcoin::Psbt>)
    ensures
        psbt_decoded(bytes@) == (match r {
            Some(psbt) => Some(psbt_view(psbt)),
            None => None,
        }),
{
    bitcoin::Psbt::deserialize(bytes).ok()
}

/// Looks at a `bitcoin::Psbt`: the id of its unsigned transaction, as
/// `compute_txid` gives it, and its inputs.
///
/// Taken on trust: the id depends on the transaction alone, and the inputs are
/// those that stand in it, in order.
#[verifier::external_body]
fn open_psbt<'a>(psbt: &'a bitcoin::Psbt) -> (r: (Vec<u8>, &'a Vec<bitcoin::psbt::Input>))
    ensures
        r.0@ == psbt_view(*psbt).unsigned_txid,
        psbt_view(*psbt).inputs == Seq::new(r.1@.len(), |i: int| input_view(r.1@[i])),
{
    let txid = psbt.unsigned_tx.compute_txid();
    (bitcoin::consensus::encode::serialize(&txid), &psbt.inputs)
}

/// Looks at the coin and the keys of a `bitcoin::psbt::Input`.
///
/// Taken on trust: the fingerprints are those of the listed keys, in the order
/// of the keys and written by their `Display`; the id of the previous
/// transaction is what `compute_txid` gives; the output is the one it holds.
#[verifier::external_body]
fn open_coin(input: &bitcoin::psbt::Input) -> (r: CoinFacts)
    ensures
        r@ == input_view(*input).coin,
{
    let id = |tx: &bitcoin::Transaction| bitcoin::consensus::encode::serialize(&tx.compute_txid());
    CoinFacts {
        key_origins: input.bip32_derivation.values().map(|key| key.0.to_string()).collect(),
        taproot_origins: input.tap_key_origins.values().map(|key| key.1.0.to_string()).collect(),
        previous: input.non_witness_utxo.as_ref().map(id),
        witness_utxo: input.witness_utxo.as_ref().map(|output| SpentOutput {
            value: output.value.to_sat(),
            script: output.script_pubkey.to_bytes(),
        }),
    }
}

/// Looks at the places of a `bitcoin::psbt::Input` where a signature can stand.
///
/// Taken on trust: the counts and the bytes are those it holds.
#[verifier::external_body]
fn open_marks(input: &bitcoin::psbt::Input) -> (r: SignatureMarks)
    ensures
        r@ == input_view(*input).marks,
{
    let witness = input.final_script_witness.as_ref();
    SignatureMarks {
        partial_sigs: input.partial_sigs.len(),
        tap_script_sigs: input.tap_script_sigs.len(),
        tap_key_sig: input.tap_key_sig.as_ref().map(|signature| signature.to_vec()),
        final_script_sig: input.final_script_sig.as_ref().map(|script| script.to_bytes()),
        final_script_witness: witness.map(|stack| bitcoin::consensus::encode::serialize(stack)),
    }
}

/// Collects what the checks look at in a transaction.
pub fn psbt_facts(psbt: &bitcoin::Psbt) -> (r: PsbtFacts)
    ensures
        r@ == psbt_view(*psbt),
{
    let (unsigned_txid, inputs) = open_psbt(psbt);
    let mut out: Vec<InputFacts> = Vec::new();
    let mut i: usize = 0;
    while i < inputs.len()
        invariant
            i <= inputs@.len(),
            out@.len() == i,
            forall|k: int| 0 <= k < i ==> (#[trigger] out@[k])@ == input_view(inputs@[k]),
        decreases inputs@.len() - i,
    {
        let coin = open_coin(&inputs[i]);
        let marks = open_marks(&inputs[i]);
        out.push(InputFacts { coin, marks });
        i += 1;
    }
    let r = PsbtFacts { unsigned_txid, inputs: out };
    proof {
        assert(r@.inputs =~= psbt_view(*psbt).inputs);
    }
    r
}

// ----------------------------------------------------------------------------
// Before
// ----------------------------------------------------------------------------
/// The fingerprints of the keys that are listed for the inputs, in order.
pub open spec fn origins(inputs: Seq<InputView>) -> Seq<Seq<char>>
    decreases inputs.len(),
{
    if inputs.len() == 0 {
        Seq::empty()
    } else {
        let coin = inputs.last().coin;
        origins(inputs.drop_last()) + (coin.key_origins + coin.taproot_origins)
    }
}

/// Whether a transaction can be signed by the device with this fingerprint, or
/// why not: it lists no keys, or only those of another device.
pub open spec fn fingerprint_verdict(psbt: PsbtView, device: Seq<char>) -> Result<(), ErrorView> {
    let listed = origins(psbt.inputs);
    if listed.len() == 0 {
        Err(ErrorView::InvalidPsbt("transaction lists no key origins"@))
    } else if listed.contains(device) {
        Ok(())
    } else {
        Err(ErrorView::FingerprintMismatch(device, listed[0]))
    }
}

spec fn texts(origins: Seq<String>) -> Seq<Seq<char>> {
    Seq::new(origins.len(), |i: int| origins[i]@)
}

/// What a search has found: the first of the fingerprints so far, and whether
/// that of the device is among them.
struct Search {
    first: Option<String>,
    found: bool,
}

impl Search {
    spec fn covers(&self, listed: Seq<Seq<char>>, device: Seq<char>) -> bool {
        &&& self.found == listed.contains(device)
        &&& match self.first {
            Some(text) => listed.len() > 0 && text@ == listed[0],
            None => listed.len() == 0,
        }
    }

    /// Goes on with some more fingerprints.
    fn look(
        self,
        listed: &Vec<String>,
        device: &str,
        Ghost(before): Ghost<Seq<Seq<char>>>,
    ) -> (r: Search)
        requires
            self.covers(before, device@),
        ensures
            r.covers(before + texts(listed@), device@),
    {
        let mut search = self;
        let ghost all = texts(listed@);
        let mut k: usize = 0;
        proof {
            assert(before + all.take(0) =~= before);
        }
        while k < listed.len()
            invariant
                k <= listed@.len(),
                all == texts(listed@),
                search.covers(before + all.take(k as int), device@),
            decreases listed@.len() - k,
        {
            let origin = listed[k].as_str();
            let ghost so_far = before + all.take(k as int);
            proof {
                assert(before + all.take(k + 1) =~= so_far.push(origin@));
                lemma_contains_push(so_far, origin@, device@);
            }
            let found = search.found || same_text(origin, device);
            let first = match search.first {
                Some(text) => Some(text),
                None => Some(origin.to_owned()),
            };
            search = Search { first, found };
            k += 1;
        }
        proof {
            assert(all.take(k as int) =~= all);
        }
        search
    }
}

/// Checks that a transaction lists keys of the device with this fingerprint.
pub fn check_fingerprint(psbt: &PsbtFacts, device: &str) -> (r: Result<(), JadeError>)
    ensures
        viewed(r) == fingerprint_verdict(psbt@, device@),
{
    let mut search = Search { first: None, found: false };
    let mut i: usize = 0;
    let ghost inputs = psbt@.inputs;
    proof {
        assert(inputs.take(0) =~= Seq::empty());
    }
    while i < psbt.inputs.len()
        invariant
            i <= psbt.inputs@.len(),
            inputs == psbt@.inputs,
            search.covers(origins(inputs.take(i as int)), device@),
        decreases psbt.inputs@.len() - i,
    {
        let coin = &psbt.inputs[i].coin;
        let ghost before = origins(inputs.take(i as int));
        let ghost keyed = before + texts(coin.key_origins@);
        let partial = search.look(&coin.key_origins, device, Ghost(before));
        search = partial.look(&coin.taproot_origins, device, Ghost(keyed));
        proof {
            assert(inputs.take(i + 1).drop_last() =~= inputs.take(i as int));
            assert(inputs.take(i + 1).last().coin == coin@);
            assert(keyed + texts(coin.taproot_origins@) =~= before + (coin@.key_origins
                + coin@.taproot_origins));
        }
        i += 1;
    }
    proof {
        assert(inputs.take(i as int) =~= inputs);
    }
    match search.first {
        None => Err(
            JadeError::InvalidPsbt { error_details: "transaction lists no key origins".to_owned() },
        ),
        Some(listed) => if search.found {
            Ok(())
        } else {
            Err(JadeError::FingerprintMismatch { device: device.to_owned(), psbt: listed })
        },
    }
}

/// Checks that a transaction lists keys of the device with this fingerprint.
///
/// Without them the device signs nothing, and the failure would surface only
/// when the transaction is finalized.
pub fn verify_psbt_fingerprint(psbt: &bitcoin::Psbt, device: &str) -> (r: Result<(), JadeError>)
    ensures
        viewed(r) == fingerprint_verdict(psbt_view(*psbt), device@),
{
    check_fingerprint(&psbt_facts(psbt), device)
}

proof fn lemma_contains_push(s: Seq<Seq<char>>, last: Seq<char>, x: Seq<char>)
    ensures
        s.push(last).contains(x) == (s.contains(x) || last == x),
{
    if s.contains(x) {
        let i = s.index_of(x);
        assert(s.push(last)[i] == x);
    }
    if last == x {
        assert(s.push(last)[s.len() as int] == x);
    }
    if s.push(last).contains(x) && last != x {
        let i = s.push(last).index_of(x);
        assert(s[i] == x);
    }
}

// ----------------------------------------------------------------------------
// After
// ----------------------------------------------------------------------------
/// Whether an input came back with nothing about the coin changed. The device
/// may leave out what it was told, but not tell something else.
pub open spec fn unaltered(sent: CoinView, returned: CoinView) -> bool {
    &&& returned.previous is Some ==> returned.previous == sent.previous
    &&& returned.witness_utxo is Some ==> returned.witness_utxo == sent.witness_utxo
}

/// Whether an input carries a signature of any kind.
pub open spec fn carries_signature(marks: MarksView) -> bool {
    ||| marks.partial_sigs > 0
    ||| marks.tap_script_sigs > 0
    ||| marks.tap_key_sig is Some
    ||| marks.final_script_sig is Some
    ||| marks.final_script_witness is Some
}

/// Whether a transaction came back as it was sent, with a signature.
pub open spec fn signed_verdict(sent: PsbtView, returned: PsbtView) -> Result<(), ErrorView> {
    if sent.unsigned_txid != returned.unsigned_txid || sent.inputs.len() != returned.inputs.len() {
        Err(ErrorView::InvalidPsbt("device returned another transaction"@))
    } else if exists|i: int|
        0 <= i < sent.inputs.len() && !unaltered(
            (#[trigger] sent.inputs[i]).coin,
            returned.inputs[i].coin,
        ) {
        Err(ErrorView::InvalidPsbt("device altered a spent output"@))
    } else if forall|i: int|
        0 <= i < returned.inputs.len() ==> !carries_signature(
            (#[trigger] returned.inputs[i]).marks,
        ) {
        Err(ErrorView::NothingSigned)
    } else {
        Ok(())
    }
}

fn same_bytes(a: &Vec<u8>, b: &Vec<u8>) -> (r: bool)
    ensures
        r == (a@ == b@),
{
    if a.len() != b.len() {
        return false;
    }
    let mut i: usize = 0;
    while i < a.len()
        invariant
            i <= a@.len() == b@.len(),
            forall|k: int| 0 <= k < i ==> a@[k] == b@[k],
        decreases a@.len() - i,
    {
        if a[i] != b[i] {
            return false;
        }
        i += 1;
    }
    proof {
        assert(a@ =~= b@);
    }
    true
}

fn is_unaltered(sent: &CoinFacts, returned: &CoinFacts) -> (r: bool)
    ensures
        r == unaltered(sent@, returned@),
{
    let same_previous = match (&returned.previous, &sent.previous) {
        (Some(a), Some(b)) => same_bytes(a, b),
        (Some(_), None) => false,
        (None, _) => true,
    };
    let same_utxo = match (&returned.witness_utxo, &sent.witness_utxo) {
        (Some(a), Some(b)) => a.value == b.value && same_bytes(&a.script, &b.script),
        (Some(_), None) => false,
        (None, _) => true,
    };
    same_previous && same_utxo
}

/// Tells whether an input carries a signature of any kind.
pub fn is_signed(marks: &SignatureMarks) -> (r: bool)
    ensures
        r == carries_signature(marks@),
{
    marks.partial_sigs > 0 || marks.tap_script_sigs > 0 || marks.tap_key_sig.is_some()
        || marks.final_script_sig.is_some() || marks.final_script_witness.is_some()
}

/// Checks the transaction that the device returned against the one that it was
/// sent.
pub fn check_signed(sent: &PsbtFacts, returned: &PsbtFacts) -> (r: Result<(), JadeError>)
    ensures
        viewed(r) == signed_verdict(sent@, returned@),
{
    if !same_bytes(&sent.unsigned_txid, &returned.unsigned_txid) || sent.inputs.len()
        != returned.inputs.len() {
        return Err(
            JadeError::InvalidPsbt {
                error_details: "device returned another transaction".to_owned(),
            },
        );
    }
    let mut signed = false;
    let mut i: usize = 0;
    while i < sent.inputs.len()
        invariant
            i <= sent.inputs@.len() == returned.inputs@.len(),
            sent@.unsigned_txid == returned@.unsigned_txid,
            forall|k: int|
                0 <= k < i ==> unaltered(
                    (#[trigger] sent@.inputs[k]).coin,
                    returned@.inputs[k].coin,
                ),
            signed == exists|k: int|
                0 <= k < i && carries_signature((#[trigger] returned@.inputs[k]).marks),
        decreases sent.inputs@.len() - i,
    {
        proof {
            assert(sent@.inputs[i as int] == sent.inputs@[i as int]@);
            assert(returned@.inputs[i as int] == returned.inputs@[i as int]@);
        }
        if !is_unaltered(&sent.inputs[i].coin, &returned.inputs[i].coin) {
            return Err(
                JadeError::InvalidPsbt {
                    error_details: "device altered a spent output".to_owned(),
                },
            );
        }
        if is_signed(&returned.inputs[i].marks) {
            signed = true;
        }
        i += 1;
    }
    if signed {
        Ok(())
    } else {
        Err(JadeError::NothingSigned)
    }
}

/// Checks the transaction that the device returned against the one that it was
/// sent.
pub fn verify_signed_psbt(sent: &bitcoin::Psbt, returned: &bitcoin::Psbt) -> (r: Result<
    (),
    JadeError,
>)
    ensures
        viewed(r) == signed_verdict(psbt_view(*sent), psbt_view(*returned)),
{
    check_signed(&psbt_facts(sent), &psbt_facts(returned))
}

/// What the bytes that came back for a transaction come to.
pub open spec fn returned_verdict(sent: PsbtView, returned: Option<PsbtView>) -> Result<
    (),
    ErrorView,
> {
    match returned {
        Some(returned) => signed_verdict(sent, returned),
        None => Err(ErrorView::InvalidPsbt("device returned no transaction"@)),
    }
}

/// Checks the bytes that the device returned against the transaction that it
/// was sent.
pub fn verify_returned_bytes(sent: &bitcoin::Psbt, bytes: &[u8]) -> (r: Result<(), JadeError>)
    ensures
        viewed(r) == returned_verdict(psbt_view(*sent), psbt_decoded(bytes@)),
{
    match read_psbt(bytes) {
        Some(returned) => verify_signed_psbt(sent, &returned),
        None => Err(
            JadeError::InvalidPsbt { error_details: "device returned no transaction".to_owned() },
        ),
    }
}

/// A transaction that is accepted spends the coins that were asked for: every
/// previous transaction and every output that came back is one that was sent.
pub proof fn lemma_accepted_transactions_are_unaltered(sent: PsbtView, returned: PsbtView, i: int)
    requires
        signed_verdict(sent, returned) is Ok,
        0 <= i < returned.inputs.len(),
    ensures
        sent.unsigned_txid == returned.unsigned_txid,
        i < sent.inputs.len(),
        unaltered(sent.inputs[i].coin, returned.inputs[i].coin),
{
}

/// A transaction is accepted exactly if it is the one that was sent, every
/// input spends what it was sent with, and at least one input carries a
/// signature, wherever it stands and however many inputs there are.
pub proof fn lemma_acceptance_takes_a_signature(sent: PsbtView, returned: PsbtView)
    ensures
        signed_verdict(sent, returned) is Ok <==> {
            &&& sent.unsigned_txid == returned.unsigned_txid
            &&& sent.inputs.len() == returned.inputs.len()
            &&& forall|i: int|
                0 <= i < returned.inputs.len() ==> {
                    let told = (#[trigger] returned.inputs[i]).coin;
                    &&& told.previous is None || told.previous == sent.inputs[i].coin.previous
                    &&& told.witness_utxo is None || told.witness_utxo
                        == sent.inputs[i].coin.witness_utxo
                }
            &&& exists|i: int|
                0 <= i < returned.inputs.len() && {
                    let marks = (#[trigger] returned.inputs[i]).marks;
                    ||| marks.partial_sigs >= 1
                    ||| marks.tap_script_sigs >= 1
                    ||| marks.tap_key_sig is Some
                    ||| marks.final_script_sig is Some
                    ||| marks.final_script_witness is Some
                }
        },
{
    if signed_verdict(sent, returned) is Ok {
        assert forall|i: int| 0 <= i < returned.inputs.len() implies unaltered(
            sent.inputs[i].coin,
            (#[trigger] returned.inputs[i]).coin,
        ) by {
            let at = sent.inputs[i];
        }
        let signed = choose|i: int|
            0 <= i < returned.inputs.len() && carries_signature(
                (#[trigger] returned.inputs[i]).marks,
            );
        let marks = returned.inputs[signed].marks;
    } else if sent.unsigned_txid == returned.unsigned_txid && sent.inputs.len()
        == returned.inputs.len() {
        if exists|i: int|
            0 <= i < sent.inputs.len() && !unaltered(
                (#[trigger] sent.inputs[i]).coin,
                returned.inputs[i].coin,
            ) {
            let i = choose|i: int|
                0 <= i < sent.inputs.len() && !unaltered(
                    (#[trigger] sent.inputs[i]).coin,
                    returned.inputs[i].coin,
                );
            let told = returned.inputs[i].coin;
        }
    }
}

/// A transaction that came back as it was sent, but with no signature in any of
/// its inputs, is told apart from every other failure, and nothing else is
/// taken for it.
pub proof fn lemma_unsigned_transactions_are_named(sent: PsbtView, returned: PsbtView)
    ensures
        signed_verdict(sent, returned) == Err::<(), ErrorView>(ErrorView::NothingSigned) <==> {
            &&& sent.unsigned_txid == returned.unsigned_txid
            &&& sent.inputs.len() == returned.inputs.len()
            &&& forall|i: int|
                0 <= i < returned.inputs.len() ==> {
                    let told = (#[trigger] returned.inputs[i]).coin;
                    let marks = returned.inputs[i].marks;
                    &&& told.previous is None || told.previous == sent.inputs[i].coin.previous
                    &&& told.witness_utxo is None || told.witness_utxo
                        == sent.inputs[i].coin.witness_utxo
                    &&& marks.partial_sigs == 0
                    &&& marks.tap_script_sigs == 0
                    &&& marks.tap_key_sig is None
                    &&& marks.final_script_sig is None
                    &&& marks.final_script_witness is None
                }
        },
        signed_verdict(sent, returned) matches Err(e) ==> e is NothingSigned || e is InvalidPsbt,
        sent.unsigned_txid != returned.unsigned_txid || sent.inputs.len() != returned.inputs.len()
            ==> signed_verdict(sent, returned) == Err::<(), ErrorView>(
            ErrorView::InvalidPsbt("device returned another transaction"@),
        ),
        returned_verdict(sent, Some(returned)) == signed_verdict(sent, returned),
        signed_verdict(sent, returned) matches Err(e) ==> sent.unsigned_txid
            == returned.unsigned_txid && sent.inputs.len() == returned.inputs.len() ==> e
            is NothingSigned || e == ErrorView::InvalidPsbt("device altered a spent output"@),
        returned_verdict(sent, None) == Err::<(), ErrorView>(
            ErrorView::InvalidPsbt("device returned no transaction"@),
        ),
{
    lemma_acceptance_takes_a_signature(sent, returned);
    if signed_verdict(sent, returned) == Err::<(), ErrorView>(ErrorView::NothingSigned) {
        assert forall|i: int| 0 <= i < returned.inputs.len() implies unaltered(
            sent.inputs[i].coin,
            (#[trigger] returned.inputs[i]).coin,
        ) && !carries_signature(returned.inputs[i].marks) by {
            let at = sent.inputs[i];
        }
    } else if signed_verdict(sent, returned) is Ok {
        let signed = choose|i: int|
            0 <= i < returned.inputs.len() && carries_signature(
                (#[trigger] returned.inputs[i]).marks,
            );
        let marks = returned.inputs[signed].marks;
    } else if sent.unsigned_txid == returned.unsigned_txid && sent.inputs.len()
        == returned.inputs.len() {
        let i = choose|i: int|
            0 <= i < sent.inputs.len() && !unaltered(
                (#[trigger] sent.inputs[i]).coin,
                returned.inputs[i].coin,
            );
        let told = returned.inputs[i].coin;
    }
}

/// Whether an input lists a key of the device with this fingerprint.
pub open spec fn lists(input: InputView, device: Seq<char>) -> bool {
    ||| exists|k: int|
        0 <= k < input.coin.key_origins.len() && #[trigger] input.coin.key_origins[k] == device
    ||| exists|k: int|
        0 <= k < input.coin.taproot_origins.len() && #[trigger] input.coin.taproot_origins[k]
            == device
}

proof fn lemma_origins_are_listed(inputs: Seq<InputView>, device: Seq<char>)
    ensures
        origins(inputs).contains(device) <==> exists|i: int|
            0 <= i < inputs.len() && lists(#[trigger] inputs[i], device),
    decreases inputs.len(),
{
    if inputs.len() > 0 {
        let before = inputs.drop_last();
        lemma_origins_are_listed(before, device);
        let coin = inputs.last().coin;
        let own = coin.key_origins + coin.taproot_origins;
        let all = origins(inputs);
        if all.contains(device) {
            let k = all.index_of(device);
            let n = origins(before).len();
            if k < n {
                assert(origins(before)[k] == device);
                assert(origins(before).contains(device));
                let i = choose|i: int| 0 <= i < before.len() && lists(#[trigger] before[i], device);
                assert(lists(inputs[i], device));
            } else {
                assert(own[k - n] == device);
                if k - n < coin.key_origins.len() {
                    assert(coin.key_origins[k - n] == device);
                } else {
                    assert(coin.taproot_origins[k - n - coin.key_origins.len()] == device);
                }
                assert(lists(inputs[inputs.len() - 1], device));
            }
        }
        if exists|i: int| 0 <= i < inputs.len() && lists(#[trigger] inputs[i], device) {
            let i = choose|i: int| 0 <= i < inputs.len() && lists(#[trigger] inputs[i], device);
            let n = origins(before).len() as int;
            if i < before.len() {
                assert(lists(before[i], device));
                let k = origins(before).index_of(device);
                assert(all[k] == device);
            } else {
                assert(inputs[i] == inputs.last());
                if exists|k: int|
                    0 <= k < coin.key_origins.len() && #[trigger] coin.key_origins[k] == device {
                    let k = choose|k: int|
                        0 <= k < coin.key_origins.len() && #[trigger] coin.key_origins[k]
                            == device;
                    assert(all[n + k] == device);
                } else {
                    let k = choose|k: int|
                        0 <= k < coin.taproot_origins.len() && #[trigger] coin.taproot_origins[k]
                            == device;
                    assert(all[n + coin.key_origins.len() + k] == device);
                }
            }
        }
    }
}

proof fn lemma_origins_empty(inputs: Seq<InputView>)
    ensures
        origins(inputs).len() == 0 <==> forall|i: int|
            0 <= i < inputs.len() ==> (#[trigger] inputs[i]).coin.key_origins.len() == 0
                && inputs[i].coin.taproot_origins.len() == 0,
    decreases inputs.len(),
{
    if inputs.len() > 0 {
        let before = inputs.drop_last();
        lemma_origins_empty(before);
        if origins(inputs).len() == 0 {
            assert forall|i: int| 0 <= i < inputs.len() implies (
            #[trigger] inputs[i]).coin.key_origins.len() == 0
                && inputs[i].coin.taproot_origins.len() == 0 by {
                if i < before.len() {
                    assert(before[i] == inputs[i]);
                }
            }
        }
        if forall|i: int|
            0 <= i < inputs.len() ==> (#[trigger] inputs[i]).coin.key_origins.len() == 0
                && inputs[i].coin.taproot_origins.len() == 0 {
            assert forall|i: int| 0 <= i < before.len() implies (
            #[trigger] before[i]).coin.key_origins.len() == 0
                && before[i].coin.taproot_origins.len() == 0 by {
                assert(before[i] == inputs[i]);
            }
            assert(inputs[inputs.len() - 1] == inputs.last());
        }
    }
}

/// A transaction is sent to a device exactly if one of its inputs lists a key
/// of that device, be it among the keys or among the taproot keys. One that
/// lists no key at all is refused as such. One that lists only keys of others
/// is refused with the fingerprint of the device and one that it does list.
pub proof fn lemma_only_listed_devices_are_asked(psbt: PsbtView, device: Seq<char>)
    ensures
        fingerprint_verdict(psbt, device) is Ok <==> exists|i: int|
            0 <= i < psbt.inputs.len() && lists(#[trigger] psbt.inputs[i], device),
        (fingerprint_verdict(psbt, device) matches Err(e) && e is InvalidPsbt) <==> forall|i: int|
            0 <= i < psbt.inputs.len() ==> (#[trigger] psbt.inputs[i]).coin.key_origins.len() == 0
                && psbt.inputs[i].coin.taproot_origins.len() == 0,
        fingerprint_verdict(psbt, device) matches Err(ErrorView::FingerprintMismatch(own, other))
            ==> own == device && other != device && exists|i: int|
            0 <= i < psbt.inputs.len() && lists(#[trigger] psbt.inputs[i], other),
        fingerprint_verdict(psbt, device) matches Err(e) ==> e == ErrorView::InvalidPsbt(
            "transaction lists no key origins"@,
        ) || e is FingerprintMismatch,
{
    lemma_origins_are_listed(psbt.inputs, device);
    lemma_origins_empty(psbt.inputs);
    if let Err(ErrorView::FingerprintMismatch(own, other)) = fingerprint_verdict(psbt, device) {
        assert(origins(psbt.inputs)[0] == other);
        assert(origins(psbt.inputs).contains(other));
        lemma_origins_are_listed(psbt.inputs, other);
    }
    if exists|i: int| 0 <= i < psbt.inputs.len() && lists(#[trigger] psbt.inputs[i], device) {
        let k = origins(psbt.inputs).index_of(device);
    }
}

/// The first fingerprint that a transaction lists is the one that a refusal
/// names: the first key of the first input, and its first taproot key if it
/// lists no other.
pub proof fn lemma_a_mismatch_names_the_first_key(psbt: PsbtView, device: Seq<char>)
    requires
        psbt.inputs.len() > 0,
        fingerprint_verdict(psbt, device) is Err,
    ensures
        psbt.inputs[0].coin.key_origins.len() > 0 ==> fingerprint_verdict(psbt, device) == Err::<
            (),
            ErrorView,
        >(ErrorView::FingerprintMismatch(device, psbt.inputs[0].coin.key_origins[0])),
        psbt.inputs[0].coin.key_origins.len() == 0 && psbt.inputs[0].coin.taproot_origins.len() > 0
            ==> fingerprint_verdict(psbt, device) == Err::<(), ErrorView>(
            ErrorView::FingerprintMismatch(device, psbt.inputs[0].coin.taproot_origins[0]),
        ),
{
    lemma_first_origin(psbt.inputs);
}

proof fn lemma_first_origin(inputs: Seq<InputView>)
    requires
        inputs.len() > 0,
    ensures
        inputs[0].coin.key_origins.len() > 0 ==> origins(inputs).len() > 0 && origins(inputs)[0]
            == inputs[0].coin.key_origins[0],
        inputs[0].coin.key_origins.len() == 0 && inputs[0].coin.taproot_origins.len() > 0
            ==> origins(inputs).len() > 0 && origins(inputs)[0]
            == inputs[0].coin.taproot_origins[0],
    decreases inputs.len(),
{
    if inputs.len() > 1 {
        lemma_first_origin(inputs.drop_last());
    } else {
        assert(origins(inputs.drop_last()) =~= Seq::empty());
    }
}

/// The value of the facts about a transaction is what their fields hold.
pub proof fn lemma_facts_show_their_fields(psbt: PsbtFacts, i: int)
    requires
        0 <= i < psbt.inputs@.len(),
    ensures
        psbt@.unsigned_txid == psbt.unsigned_txid@,
        psbt@.inputs.len() == psbt.inputs@.len(),
        ({
            let input = psbt.inputs@[i];
            let seen = psbt@.inputs[i];
            &&& seen.coin.key_origins.len() == input.coin.key_origins@.len()
            &&& forall|k: int|
                0 <= k < input.coin.key_origins@.len() ==> #[trigger] seen.coin.key_origins[k]
                    == input.coin.key_origins@[k]@
            &&& seen.coin.taproot_origins.len() == input.coin.taproot_origins@.len()
            &&& forall|k: int|
                0 <= k < input.coin.taproot_origins@.len()
                    ==> #[trigger] seen.coin.taproot_origins[k] == input.coin.taproot_origins@[k]@
            &&& seen.coin.previous is Some <==> input.coin.previous is Some
            &&& input.coin.previous matches Some(b) ==> seen.coin.previous == Some(b@)
            &&& seen.coin.witness_utxo is Some <==> input.coin.witness_utxo is Some
            &&& input.coin.witness_utxo matches Some(o) ==> seen.coin.witness_utxo == Some(
                (o.value, o.script@),
            )
            &&& seen.marks.partial_sigs == input.marks.partial_sigs
            &&& seen.marks.tap_script_sigs == input.marks.tap_script_sigs
            &&& seen.marks.tap_key_sig is Some <==> input.marks.tap_key_sig is Some
            &&& seen.marks.final_script_sig is Some <==> input.marks.final_script_sig is Some
            &&& seen.marks.final_script_witness is Some
                <==> input.marks.final_script_witness is Some
        }),
{
}

/// A returned transaction passes only if one of its inputs carries a signature,
/// however many it has. If it fails because nothing is signed, none of them
/// does.
pub proof fn lemma_passing_takes_a_signature(
    sent: &PsbtFacts,
    returned: &PsbtFacts,
    r: Result<(), JadeError>,
)
    requires
        call_ensures(check_signed, (sent, returned), r),
    ensures
        r is Ok ==> exists|i: int|
            0 <= i < returned.inputs@.len() && {
                let marks = (#[trigger] returned.inputs@[i]).marks;
                ||| marks.partial_sigs > 0
                ||| marks.tap_script_sigs > 0
                ||| marks.tap_key_sig is Some
                ||| marks.final_script_sig is Some
                ||| marks.final_script_witness is Some
            },
        r is Ok ==> sent.unsigned_txid@ == returned.unsigned_txid@ && sent.inputs@.len()
            == returned.inputs@.len(),
        r matches Err(JadeError::NothingSigned) ==> forall|i: int|
            0 <= i < returned.inputs@.len() ==> {
                let marks = (#[trigger] returned.inputs@[i]).marks;
                &&& marks.partial_sigs == 0
                &&& marks.tap_script_sigs == 0
                &&& marks.tap_key_sig is None
                &&& marks.final_script_sig is None
                &&& marks.final_script_witness is None
            },
{
    lemma_acceptance_takes_a_signature(sent@, returned@);
    lemma_unsigned_transactions_are_named(sent@, returned@);
    if r is Ok {
        let i = choose|i: int|
            0 <= i < returned@.inputs.len() && {
                let marks = (#[trigger] returned@.inputs[i]).marks;
                ||| marks.partial_sigs >= 1
                ||| marks.tap_script_sigs >= 1
                ||| marks.tap_key_sig is Some
                ||| marks.final_script_sig is Some
                ||| marks.final_script_witness is Some
            };
        lemma_facts_show_their_fields(*returned, i);
        let own = returned.inputs@[i];
    }
    if r matches Err(JadeError::NothingSigned) {
        assert forall|i: int| 0 <= i < returned.inputs@.len() implies {
            let marks = (#[trigger] returned.inputs@[i]).marks;
            &&& marks.partial_sigs == 0
            &&& marks.tap_script_sigs == 0
            &&& marks.tap_key_sig is None
            &&& marks.final_script_sig is None
            &&& marks.final_script_witness is None
        } by {
            let seen = returned@.inputs[i];
            lemma_facts_show_their_fields(*returned, i);
        }
    }
}

} // verus!
