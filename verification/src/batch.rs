//! Test data for a table of keys: numbered keys under one tag byte, written
//! in blocks, and a coin flip for each key on whether it is deleted again.
//!
//! Nothing is sent from here.  The plan lists the units of work, each a list
//! of mutations that the store is to take together, in the order in which
//! they are to be sent.

use crate::order::has_prefix;
use crate::scan::rows_view;
use rand::rngs::StdRng;
use rand::Rng;
use rand::SeedableRng;
use vstd::prelude::*;

verus! {

/// The byte that every key of the plan starts with.
pub const KEY_TAG: u8 = 0;

/// The number of keys in a block.
pub const BLOCK_SIZE: usize = 1000;

#[verifier::external_type_specification]
#[verifier::external_body]
pub struct ExEncodingError(bcs::Error);

#[verifier::external_type_specification]
#[verifier::external_body]
pub struct ExStdRng(rand::rngs::StdRng);

/// The eight bytes of `value`, the lowest first.
pub open spec fn u64_le_bytes(value: u64) -> Seq<u8> {
    seq![
        (value % 0x100) as u8,
        (value / 0x100 % 0x100) as u8,
        (value / 0x1_0000 % 0x100) as u8,
        (value / 0x100_0000 % 0x100) as u8,
        (value / 0x1_0000_0000 % 0x100) as u8,
        (value / 0x100_0000_0000 % 0x100) as u8,
        (value / 0x1_0000_0000_0000 % 0x100) as u8,
        (value / 0x100_0000_0000_0000 % 0x100) as u8,
    ]
}

/// The key with the number `pos`: the tag, then the eight bytes of `pos`.
pub open spec fn key_bytes(pos: u64) -> Seq<u8> {
    seq![KEY_TAG] + u64_le_bytes(pos)
}

/// Two numbers with the same last digit to the base 256, and the same
/// digits before it, are one number.
proof fn lemma_same_digits(x: int, y: int)
    requires
        x / 0x100 == y / 0x100,
        x % 0x100 == y % 0x100,
    ensures
        x == y,
{
}

/// Cutting `k + 1` digits to the base 256 off a number is cutting off `k`
/// digits, and then one more.
proof fn lemma_next_digit(x: int, d: int)
    requires
        0 <= x,
        0 < d,
    ensures
        x / (d * 0x100) == (x / d) / 0x100,
{
    vstd::arithmetic::div_mod::lemma_div_denominator(x, d, 0x100);
}

/// A number is told by its eight bytes.
pub proof fn lemma_u64_le_bytes_injective(a: u64, b: u64)
    requires
        u64_le_bytes(a) == u64_le_bytes(b),
    ensures
        a == b,
{
    let x = u64_le_bytes(a);
    let y = u64_le_bytes(b);
    let (a0, b0) = (a as int, b as int);
    let (a1, b1) = (a0 / 0x100, b0 / 0x100);
    let (a2, b2) = (a1 / 0x100, b1 / 0x100);
    let (a3, b3) = (a2 / 0x100, b2 / 0x100);
    let (a4, b4) = (a3 / 0x100, b3 / 0x100);
    let (a5, b5) = (a4 / 0x100, b4 / 0x100);
    let (a6, b6) = (a5 / 0x100, b5 / 0x100);
    let (a7, b7) = (a6 / 0x100, b6 / 0x100);
    assert(a2 == a0 / 0x1_0000 && b2 == b0 / 0x1_0000) by {
        lemma_next_digit(a0, 0x100);
        lemma_next_digit(b0, 0x100);
    }
    assert(a3 == a0 / 0x100_0000 && b3 == b0 / 0x100_0000) by {
        lemma_next_digit(a0, 0x1_0000);
        lemma_next_digit(b0, 0x1_0000);
    }
    assert(a4 == a0 / 0x1_0000_0000 && b4 == b0 / 0x1_0000_0000) by {
        lemma_next_digit(a0, 0x100_0000);
        lemma_next_digit(b0, 0x100_0000);
    }
    assert(a5 == a0 / 0x100_0000_0000 && b5 == b0 / 0x100_0000_0000) by {
        lemma_next_digit(a0, 0x1_0000_0000);
        lemma_next_digit(b0, 0x1_0000_0000);
    }
    assert(a6 == a0 / 0x1_0000_0000_0000 && b6 == b0 / 0x1_0000_0000_0000) by {
        lemma_next_digit(a0, 0x100_0000_0000);
        lemma_next_digit(b0, 0x100_0000_0000);
    }
    assert(a7 == a0 / 0x100_0000_0000_0000 && b7 == b0 / 0x100_0000_0000_0000) by {
        lemma_next_digit(a0, 0x1_0000_0000_0000);
        lemma_next_digit(b0, 0x1_0000_0000_0000);
    }
    assert(a7 % 0x100 == b7 % 0x100) by {
        assert(x[7] == y[7]);
    }
    assert(a7 == b7) by {
        assert(a7 < 0x100 && b7 < 0x100);
    }
    assert(a6 == b6) by {
        assert(x[6] == y[6]);
        lemma_same_digits(a6, b6);
    }
    assert(a5 == b5) by {
        assert(x[5] == y[5]);
        lemma_same_digits(a5, b5);
    }
    assert(a4 == b4) by {
        assert(x[4] == y[4]);
        lemma_same_digits(a4, b4);
    }
    assert(a3 == b3) by {
        assert(x[3] == y[3]);
        lemma_same_digits(a3, b3);
    }
    assert(a2 == b2) by {
        assert(x[2] == y[2]);
        lemma_same_digits(a2, b2);
    }
    assert(a1 == b1) by {
        assert(x[1] == y[1]);
        lemma_same_digits(a1, b1);
    }
    assert(a0 == b0) by {
        assert(x[0] == y[0]);
        lemma_same_digits(a0, b0);
    }
}

/// Every key has nine bytes and starts with the tag, and keys with
/// different numbers differ.
pub proof fn lemma_key_bytes(a: u64, b: u64)
    ensures
        key_bytes(a).len() == 9,
        has_prefix(key_bytes(a), seq![KEY_TAG]),
        key_bytes(a).skip(1) == u64_le_bytes(a),
        key_bytes(a) == key_bytes(b) ==> a == b,
{
    assert(key_bytes(a).skip(1) =~= u64_le_bytes(a));
    assert(key_bytes(b).skip(1) =~= u64_le_bytes(b));
    if key_bytes(a) == key_bytes(b) {
        lemma_u64_le_bytes_injective(a, b);
    }
}

/// Whether `bcs::serialize_into` returns `Ok` when it is called on the
/// number `value` with a writer that holds `written`.
pub uninterp spec fn encoder_accepts(written: Seq<u8>, value: u64) -> bool;

/// Whether the encoder gives a key for the number `pos`.
pub open spec fn key_encodes(pos: u64) -> bool {
    encoder_accepts(seq![KEY_TAG], pos)
}

/// Calls `bcs::serialize_into` on a `u64`, with `buf` as the writer.
///
/// Trusted: whether the call returns `Ok` is told by what `buf` held and by
/// `value`, and by nothing else.  Where it returns `Ok`, it has put the
/// eight bytes of `value` behind what `buf` held, the lowest byte first, and
/// nothing else.  Nothing is claimed of `buf` where the call returns an
/// error, nor of the inputs on which it does.
#[verifier::external_body]
fn serialize_u64_into(buf: &mut Vec<u8>, value: u64) -> (r: Result<(), bcs::Error>)
    ensures
        r is Ok <==> encoder_accepts(old(buf)@, value),
        r is Ok ==> final(buf)@ == old(buf)@ + u64_le_bytes(value),
{
    bcs::serialize_into(buf, &value)
}

/// Calls `StdRng::seed_from_u64` of the crate `rand`.
///
/// Trusted: nothing is claimed of the generator that comes back.  The crate
/// documents it as one whose output may change with its configuration, so
/// no contract here ties a flip to the seed.
#[verifier::external_body]
fn seeded_rng(seed: u64) -> StdRng {
    StdRng::seed_from_u64(seed)
}

/// Calls `Rng::gen::<bool>` of the crate `rand` on `rng`.
///
/// Trusted: nothing is claimed of the flip, nor of the generator after it.
#[verifier::external_body]
fn coin_flip(rng: &mut StdRng) -> bool {
    rng.gen::<bool>()
}

/// Why there is no plan.
#[derive(Clone, Copy, Debug, PartialEq, Eq)]
pub enum PlanError {
    /// More blocks were asked for than a plan can count the keys of.
    TooManyKeys,
    /// The key with the number `pos` could not be put into bytes.
    KeyEncoding { pos: u64 },
}

/// The key that `buf` holds after the encoder was called on the number
/// `pos`, or the error that says that the encoder failed.
pub fn key_from_encoding(buf: Vec<u8>, outcome: Result<(), bcs::Error>, pos: u64) -> (r: Result<
    Vec<u8>,
    PlanError,
>)
    ensures
        outcome is Ok ==> r == Ok::<Vec<u8>, PlanError>(buf),
        outcome is Err ==> r == Err::<Vec<u8>, PlanError>(PlanError::KeyEncoding { pos }),
{
    match outcome {
        Ok(()) => Ok(buf),
        Err(_) => Err(PlanError::KeyEncoding { pos }),
    }
}

/// The key with the number `pos`: the tag and the eight bytes of `pos`,
/// where the encoder gives one, and the error that names `pos` where it does
/// not.
pub fn encode_key(pos: u64) -> (r: Result<Vec<u8>, PlanError>)
    ensures
        r is Ok <==> key_encodes(pos),
        r matches Ok(key) ==> key@ == key_bytes(pos),
        r matches Err(e) ==> e == (PlanError::KeyEncoding { pos }),
{
    let mut buf: Vec<u8> = Vec::new();
    buf.push(KEY_TAG);
    assert(buf@ == seq![KEY_TAG]);
    let outcome = serialize_u64_into(&mut buf, pos);
    key_from_encoding(buf, outcome, pos)
}

/// One change asked of the store.
#[derive(Clone, Debug, PartialEq, Eq)]
pub enum Mutation {
    /// Write `value` under `key`.
    Insert { key: Vec<u8>, value: Vec<u8> },
    /// Remove the row under `key`.
    Delete { key: Vec<u8> },
}

pub enum MutationView {
    Insert { key: Seq<u8>, value: Seq<u8> },
    Delete { key: Seq<u8> },
}

impl View for Mutation {
    type V = MutationView;

    open spec fn view(&self) -> MutationView {
        match self {
            Mutation::Insert { key, value } => MutationView::Insert { key: key@, value: value@ },
            Mutation::Delete { key } => MutationView::Delete { key: key@ },
        }
    }
}

/// A unit of work: the mutations that are handed to the store together.
#[derive(Clone, Debug, PartialEq, Eq)]
pub struct WorkUnit {
    pub mutations: Vec<Mutation>,
}

impl View for WorkUnit {
    type V = Seq<MutationView>;

    open spec fn view(&self) -> Seq<MutationView> {
        self.mutations@.map_values(|m: Mutation| m@)
    }
}

/// The unit that writes each of `keys`, in their order, with the key itself
/// as the value.
pub open spec fn insert_unit(keys: Seq<Seq<u8>>) -> Seq<MutationView> {
    keys.map_values(|k: Seq<u8>| MutationView::Insert { key: k, value: k })
}

/// The unit that removes each of `keys`, in their order.
pub open spec fn delete_unit(keys: Seq<Seq<u8>>) -> Seq<MutationView> {
    keys.map_values(|k: Seq<u8>| MutationView::Delete { key: k })
}

/// Whether the flip for the key at index `i` came up for deleting it.  A key
/// without a flip stays.
pub open spec fn flipped(flips: Seq<bool>, i: int) -> bool {
    0 <= i < flips.len() && flips[i]
}

/// Those of the first `n` keys whose flip came up, in their order.
pub open spec fn chosen(keys: Seq<Seq<u8>>, flips: Seq<bool>, n: nat) -> Seq<Seq<u8>>
    decreases n,
{
    if n == 0 {
        Seq::empty()
    } else {
        let front = chosen(keys, flips, (n - 1) as nat);
        if flipped(flips, n - 1) {
            front.push(keys[n - 1])
        } else {
            front
        }
    }
}

/// The two units of a block: the one that writes every key of the block,
/// and the one that removes those keys whose flip came up.
pub fn block_units(keys: &Vec<Vec<u8>>, flips: &Vec<bool>) -> (units: (WorkUnit, WorkUnit))
    ensures
        units.0@ == insert_unit(rows_view(keys@)),
        units.1@ == delete_unit(chosen(rows_view(keys@), flips@, keys@.len())),
{
    let mut inserts: Vec<Mutation> = Vec::new();
    let mut deletes: Vec<Mutation> = Vec::new();
    let ghost all = rows_view(keys@);
    let mut i: usize = 0;
    while i < keys.len()
        invariant
            i <= keys.len(),
            all == rows_view(keys@),
            inserts@.map_values(|m: Mutation| m@) == insert_unit(all.take(i as int)),
            deletes@.map_values(|m: Mutation| m@) == delete_unit(chosen(all, flips@, i as nat)),
        decreases keys.len() - i,
    {
        let ghost written = inserts@.map_values(|m: Mutation| m@);
        let ghost removed = deletes@.map_values(|m: Mutation| m@);
        let key = keys[i].clone();
        let value = keys[i].clone();
        inserts.push(Mutation::Insert { key, value });
        assert(inserts@.map_values(|m: Mutation| m@) =~= written.push(
            MutationView::Insert { key: all[i as int], value: all[i as int] },
        ));
        assert(insert_unit(all.take(i + 1)) =~= insert_unit(all.take(i as int)).push(
            MutationView::Insert { key: all[i as int], value: all[i as int] },
        ));
        if i < flips.len() && flips[i] {
            let key = keys[i].clone();
            deletes.push(Mutation::Delete { key });
            assert(deletes@.map_values(|m: Mutation| m@) =~= removed.push(
                MutationView::Delete { key: all[i as int] },
            ));
            assert(delete_unit(chosen(all, flips@, (i + 1) as nat)) =~= delete_unit(
                chosen(all, flips@, i as nat),
            ).push(MutationView::Delete { key: all[i as int] }));
        }
        i = i + 1;
    }
    assert(all.take(i as int) == all);
    (WorkUnit { mutations: inserts }, WorkUnit { mutations: deletes })
}

/// What is to be written to the table and removed from it again: for each
/// block one unit of writes and one unit of removals, and the number of
/// mutations of each kind.  All the writes are to be sent before the first
/// removal.
#[derive(Clone, Debug, PartialEq, Eq)]
pub struct WritePlan {
    pub inserts: Vec<WorkUnit>,
    pub deletes: Vec<WorkUnit>,
    pub n_insert: u64,
    pub n_delete: u64,
}

pub struct WritePlanView {
    pub inserts: Seq<Seq<MutationView>>,
    pub deletes: Seq<Seq<MutationView>>,
    pub n_insert: u64,
    pub n_delete: u64,
}

/// A list of units, each as the mutations it holds.
pub open spec fn units_view(units: Seq<WorkUnit>) -> Seq<Seq<MutationView>> {
    units.map_values(|u: WorkUnit| u@)
}

impl View for WritePlan {
    type V = WritePlanView;

    open spec fn view(&self) -> WritePlanView {
        WritePlanView {
            inserts: units_view(self.inserts@),
            deletes: units_view(self.deletes@),
            n_insert: self.n_insert,
            n_delete: self.n_delete,
        }
    }
}

/// `count` keys in a row, the first with the number `first`.
pub open spec fn keys_from(first: nat, count: nat) -> Seq<Seq<u8>> {
    Seq::new(count, |i: int| key_bytes((first + i) as u64))
}

/// The keys of the block with the index `block`.  The blocks number their
/// keys through, the first block from zero.
pub open spec fn block_keys(block: nat) -> Seq<Seq<u8>> {
    keys_from(block * BLOCK_SIZE as nat, BLOCK_SIZE as nat)
}

/// The number of mutations in all of `units`.
pub open spec fn mutation_count(units: Seq<Seq<MutationView>>) -> nat
    decreases units.len(),
{
    if units.len() == 0 {
        0
    } else {
        mutation_count(units.drop_last()) + units.last().len()
    }
}

/// The flips for the keys of the block with the index `block`.  The flips
/// are numbered through like the keys: the flip at `pos` is for the key
/// with the number `pos`.
pub open spec fn block_flips(flips: Seq<bool>, block: nat) -> Seq<bool> {
    Seq::new(BLOCK_SIZE as nat, |i: int| flipped(flips, block * BLOCK_SIZE + i))
}

/// The plan for `n_blk` blocks where the flips came up as `flips` says.
///
/// The writes do not depend on the flips: block by block, they are the
/// numbered keys in their order.  The removals of a block are those of its
/// keys whose flip came up, in their order.
pub open spec fn plan_spec(n_blk: nat, flips: Seq<bool>) -> WritePlanView {
    let inserts = Seq::new(n_blk, |b: int| insert_unit(block_keys(b as nat)));
    let deletes = Seq::new(
        n_blk,
        |b: int|
            delete_unit(
                chosen(block_keys(b as nat), block_flips(flips, b as nat), BLOCK_SIZE as nat),
            ),
    );
    WritePlanView {
        inserts,
        deletes,
        n_insert: key_count(n_blk) as u64,
        n_delete: mutation_count(deletes) as u64,
    }
}

/// The number of keys in `n_blk` blocks.
pub open spec fn key_count(n_blk: nat) -> nat {
    n_blk * BLOCK_SIZE as nat
}

/// The least number below `count` for which the encoder gives no key.
pub open spec fn first_refused(count: nat) -> Option<u64>
    decreases count,
{
    if count == 0 {
        None
    } else {
        match first_refused((count - 1) as nat) {
            Some(pos) => Some(pos),
            None => if key_encodes((count - 1) as u64) {
                None
            } else {
                Some((count - 1) as u64)
            },
        }
    }
}

/// What planning `n_blk` blocks gives where the flips came up as `flips`
/// says: no plan where the keys are too many to count or the encoder gives
/// no key for one of them, which the error names, the least where there are
/// several; else the plan.
pub open spec fn plan_outcome(n_blk: nat, flips: Seq<bool>) -> Result<WritePlanView, PlanError> {
    if key_count(n_blk) > usize::MAX {
        Err(PlanError::TooManyKeys)
    } else {
        match first_refused(key_count(n_blk)) {
            Some(pos) => Err(PlanError::KeyEncoding { pos }),
            None => Ok(plan_spec(n_blk, flips)),
        }
    }
}

/// A plan or the lack of one, the plan as what it holds.
pub open spec fn outcome_view(r: Result<WritePlan, PlanError>) -> Result<WritePlanView, PlanError> {
    match r {
        Ok(plan) => Ok(plan@),
        Err(e) => Err(e),
    }
}

/// No more keys are chosen than there are.
pub proof fn lemma_chosen_len(keys: Seq<Seq<u8>>, flips: Seq<bool>, n: nat)
    ensures
        chosen(keys, flips, n).len() <= n,
    decreases n,
{
    if n > 0 {
        lemma_chosen_len(keys, flips, (n - 1) as nat);
    }
}

/// The first refused number is refused, and no number before it is; there
/// is none exactly where the encoder gives a key for every number below
/// `count`.
pub proof fn lemma_first_refused(count: nat)
    requires
        count <= u64::MAX,
    ensures
        first_refused(count) is None <==> forall|pos: u64| pos < count ==> key_encodes(pos),
        first_refused(count) matches Some(pos) ==> {
            &&& pos < count
            &&& !key_encodes(pos)
            &&& forall|q: u64| q < pos ==> key_encodes(q)
        },
    decreases count,
{
    if count > 0 {
        lemma_first_refused((count - 1) as nat);
    }
}

/// A refused number below `m` is the first refused number below every
/// greater bound.
proof fn lemma_first_refused_extends(m: nat, n: nat)
    requires
        m <= n,
        first_refused(m) is Some,
    ensures
        first_refused(n) == first_refused(m),
    decreases n - m,
{
    if m < n {
        lemma_first_refused_extends(m, (n - 1) as nat);
    }
}

/// The keys of one block, the first with the number `first`, and for each
/// the flip with its number.
fn block_inputs(first: usize, flips: &[bool]) -> (r: Result<(Vec<Vec<u8>>, Vec<bool>), PlanError>)
    requires
        first + BLOCK_SIZE <= usize::MAX,
        first_refused(first as nat) is None,
    ensures
        r matches Ok((keys, drawn)) ==> {
            &&& rows_view(keys@) == keys_from(first as nat, BLOCK_SIZE as nat)
            &&& drawn@ == Seq::new(BLOCK_SIZE as nat, |i: int| flipped(flips@, first + i))
            &&& first_refused((first + BLOCK_SIZE) as nat) is None
        },
        r matches Err(e) ==> first_refused((first + BLOCK_SIZE) as nat) matches Some(pos) && e == (
        PlanError::KeyEncoding { pos }),
{
    let mut keys: Vec<Vec<u8>> = Vec::new();
    let mut drawn: Vec<bool> = Vec::new();
    let mut i: usize = 0;
    while i < BLOCK_SIZE
        invariant
            i <= BLOCK_SIZE,
            first + BLOCK_SIZE <= usize::MAX,
            rows_view(keys@) == keys_from(first as nat, i as nat),
            drawn@ == Seq::new(i as nat, |j: int| flipped(flips@, first + j)),
            first_refused((first + i) as nat) is None,
        decreases BLOCK_SIZE - i,
    {
        let pos: usize = first + i;
        let ghost before = rows_view(keys@);
        let ghost seen = drawn@;
        match encode_key(pos as u64) {
            Ok(key) => {
                keys.push(key);
                assert(rows_view(keys@) =~= before.push(key_bytes(pos as u64)));
                assert(keys_from(first as nat, (i + 1) as nat) =~= keys_from(
                    first as nat,
                    i as nat,
                ).push(key_bytes(pos as u64)));
            },
            Err(e) => {
                proof {
                    assert(first_refused((pos + 1) as nat) == Some(pos as u64));
                    lemma_first_refused_extends((pos + 1) as nat, (first + BLOCK_SIZE) as nat);
                }
                return Err(e);
            },
        }
        let flip = pos < flips.len() && flips[pos];
        drawn.push(flip);
        assert(drawn@ =~= Seq::new((i + 1) as nat, |j: int| flipped(flips@, first + j)));
        assert(first_refused((pos + 1) as nat) is None);
        i = i + 1;
    }
    Ok((keys, drawn))
}

/// The plan for `n_blk` blocks of keys where the flips came up as `flips`
/// says, the flip at `pos` for the key with the number `pos`.  A key
/// without a flip stays.
pub fn plan_with_flips(n_blk: usize, flips: &[bool]) -> (r: Result<WritePlan, PlanError>)
    ensures
        outcome_view(r) == plan_outcome(n_blk as nat, flips@),
{
    let count: usize = match n_blk.checked_mul(BLOCK_SIZE) {
        Some(count) => count,
        None => {
            return Err(PlanError::TooManyKeys);
        },
    };
    let mut inserts: Vec<WorkUnit> = Vec::new();
    let mut deletes: Vec<WorkUnit> = Vec::new();
    let mut first: usize = 0;
    let mut n_delete: u64 = 0;
    let mut block: usize = 0;
    while block < n_blk
        invariant
            block <= n_blk,
            count == n_blk * BLOCK_SIZE,
            first == block * BLOCK_SIZE,
            first_refused(first as nat) is None,
            inserts@.len() == block,
            deletes@.len() == block,
            forall|b: int|
                0 <= b < block ==> (#[trigger] inserts@[b])@ == insert_unit(block_keys(b as nat)),
            forall|b: int|
                0 <= b < block ==> (#[trigger] deletes@[b])@ == delete_unit(
                    chosen(block_keys(b as nat), block_flips(flips@, b as nat), BLOCK_SIZE as nat),
                ),
            n_delete == mutation_count(units_view(deletes@)),
            n_delete <= first,
        decreases n_blk - block,
    {
        match block_inputs(first, flips) {
            Err(e) => {
                proof {
                    lemma_first_refused_extends((first + BLOCK_SIZE) as nat, count as nat);
                }
                return Err(e);
            },
            Ok((keys, drawn)) => {
                let (written, removed) = block_units(&keys, &drawn);
                proof {
                    assert(rows_view(keys@).len() == keys@.len());
                    assert(drawn@ == block_flips(flips@, block as nat));
                    lemma_chosen_len(rows_view(keys@), drawn@, BLOCK_SIZE as nat);
                    assert(removed.mutations@.len() == removed@.len());
                    assert(removed@.len() <= BLOCK_SIZE);
                    assert(units_view(deletes@.push(removed)).drop_last() == units_view(deletes@));
                }
                first = first + BLOCK_SIZE;
                n_delete = n_delete + removed.mutations.len() as u64;
                inserts.push(written);
                deletes.push(removed);
            },
        }
        block = block + 1;
    }
    let plan = WritePlan { inserts, deletes, n_insert: first as u64, n_delete };
    proof {
        let wanted = plan_spec(n_blk as nat, flips@);
        assert(plan@.inserts =~= wanted.inserts);
        assert(plan@.deletes =~= wanted.deletes);
    }
    Ok(plan)
}

/// `count` flips drawn in a row from a generator seeded with `seed`.
fn draw_flips(count: usize, seed: u64) -> (flips: Vec<bool>)
    ensures
        flips@.len() == count,
{
    let mut rng = seeded_rng(seed);
    let mut flips: Vec<bool> = Vec::new();
    let mut i: usize = 0;
    while i < count
        invariant
            i <= count,
            flips@.len() == i,
        decreases count - i,
    {
        let flip = coin_flip(&mut rng);
        flips.push(flip);
        i = i + 1;
    }
    flips
}

/// The plan for `n_blk` blocks of keys, with one flip for each key, drawn
/// in the order of the keys from a generator seeded with `seed`.
///
/// Whether there is a plan does not depend on the flips, and neither do its
/// writes.  Which keys are removed again is for the generator to say: the
/// plan is the one that `plan_with_flips` gives for the flips drawn.
pub fn plan_writes(n_blk: usize, seed: u64) -> (r: Result<WritePlan, PlanError>)
    ensures
        exists|flips: Seq<bool>|
            {
                &&& key_count(n_blk as nat) <= usize::MAX ==> flips.len() == key_count(n_blk as nat)
                &&& outcome_view(r) == #[trigger] plan_outcome(n_blk as nat, flips)
            },
        r is Ok <==> key_count(n_blk as nat) <= usize::MAX && first_refused(
            key_count(n_blk as nat),
        ) is None,
        r matches Err(e) ==> Err::<WritePlanView, PlanError>(e) == plan_outcome(
            n_blk as nat,
            Seq::empty(),
        ),
{
    match n_blk.checked_mul(BLOCK_SIZE) {
        None => {
            let r = Err(PlanError::TooManyKeys);
            assert(outcome_view(r) == plan_outcome(n_blk as nat, Seq::<bool>::empty()));
            r
        },
        Some(count) => {
            let flips = draw_flips(count, seed);
            plan_with_flips(n_blk, flips.as_slice())
        },
    }
}

} // verus!
