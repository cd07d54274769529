//! Choosing the channel notes that fund a withdrawal.

use vstd::prelude::*;
use vstd::string::StringExecFns;

use crate::collections::KeySet;
use crate::ids::{NoteId, ZkPublicKey};
use crate::mantle::{Value, MAX_TRANSACTION_INPUTS};
use crate::sequencer::types::{ChannelNote, ChannelWalletView, Error, WithdrawInputs};
use crate::text::{decimal, hex_chars, hex_encode, push_decimal};

verus! {

/// An order of preference among notes.
#[derive(Clone, Copy, Debug, PartialEq, Eq, Structural)]
pub enum NoteOrder {
    NewestFirst,
    LargestFirst,
    /// The smallest first, the oldest first among equals.
    SmallestOldestFirst,
}

impl NoteOrder {
    /// What the order sorts by, ascending.
    pub open spec fn rank(self, note: ChannelNote) -> int {
        match self {
            NoteOrder::NewestFirst => -(note.slot as int),
            NoteOrder::LargestFirst => -(note.value as int),
            NoteOrder::SmallestOldestFirst => note.value * 0x1_0000_0000_0000_0000 + note.slot,
        }
    }

    fn after(&self, a: &ChannelNote, b: &ChannelNote) -> (res: bool)
        ensures
            res == (self.rank(*a) > self.rank(*b)),
    {
        match self {
            NoteOrder::NewestFirst => a.slot < b.slot,
            NoteOrder::LargestFirst => a.value < b.value,
            NoteOrder::SmallestOldestFirst => a.value > b.value || (a.value == b.value && a.slot
                > b.slot),
        }
    }
}

/// `note` put into a sorted list, behind what ranks no higher.
pub open spec fn inserted(notes: Seq<ChannelNote>, note: ChannelNote, by: NoteOrder) -> Seq<
    ChannelNote,
>
    decreases notes.len(),
{
    if notes.len() == 0 || by.rank(notes.last()) <= by.rank(note) {
        notes.push(note)
    } else {
        inserted(notes.drop_last(), note, by).push(notes.last())
    }
}

/// The stable sort of a list: ascending in rank, equals in their given order
/// (see [`law_sorted_is_the_stable_sort`]).
pub open spec fn sorted(notes: Seq<ChannelNote>, by: NoteOrder) -> Seq<ChannelNote>
    decreases notes.len(),
{
    if notes.len() == 0 {
        Seq::empty()
    } else {
        inserted(sorted(notes.drop_last(), by), notes.last(), by)
    }
}

/// The test for a rank.
pub open spec fn ranked(by: NoteOrder, rank: int) -> spec_fn(ChannelNote) -> bool {
    |note: ChannelNote| by.rank(note) == rank
}

/// Ascending in rank.
pub open spec fn in_rank_order(notes: Seq<ChannelNote>, by: NoteOrder) -> bool {
    forall|i: int, j: int|
        0 <= i < j < notes.len() ==> by.rank(#[trigger] notes[i]) <= by.rank(#[trigger] notes[j])
}

proof fn lemma_inserted(notes: Seq<ChannelNote>, note: ChannelNote, by: NoteOrder, rank: int)
    requires
        in_rank_order(notes, by),
    ensures
        in_rank_order(inserted(notes, note, by), by),
        inserted(notes, note, by).len() == notes.len() + 1,
        forall|i: int|
            0 <= i < inserted(notes, note, by).len() ==> (#[trigger] inserted(notes, note, by)[i]
                == note || notes.contains(inserted(notes, note, by)[i])),
        inserted(notes, note, by).filter(ranked(by, rank)) == notes.push(note).filter(
            ranked(by, rank),
        ),
    decreases notes.len(),
{
    let res = inserted(notes, note, by);
    let p = ranked(by, rank);
    if notes.len() == 0 || by.rank(notes.last()) <= by.rank(note) {
        assert forall|i: int| 0 <= i < res.len() implies (#[trigger] res[i] == note
            || notes.contains(res[i])) by {
            if i < notes.len() {
                assert(res[i] == notes[i]);
            }
        }
        assert forall|i: int, j: int| 0 <= i < j < res.len() implies by.rank(#[trigger] res[i])
            <= by.rank(#[trigger] res[j]) by {
            if j == notes.len() && i < notes.len() - 1 {
                assert(by.rank(notes[i]) <= by.rank(notes[notes.len() - 1]));
            }
        }
    } else {
        let rest = notes.drop_last();
        let last = notes.last();
        lemma_inserted(rest, note, by, rank);
        let inner = inserted(rest, note, by);
        assert forall|i: int| 0 <= i < res.len() implies (#[trigger] res[i] == note
            || notes.contains(res[i])) by {
            if i < inner.len() {
                assert(res[i] == inner[i]);
                if inner[i] != note {
                    let j = rest.index_of(inner[i]);
                    assert(notes[j] == inner[i]);
                }
            } else {
                assert(res[i] == notes[notes.len() - 1]);
            }
        }
        assert forall|i: int, j: int| 0 <= i < j < res.len() implies by.rank(#[trigger] res[i])
            <= by.rank(#[trigger] res[j]) by {
            if j == inner.len() {
                assert(res[i] == inner[i]);
                if inner[i] != note {
                    let k = rest.index_of(inner[i]);
                    assert(by.rank(notes[k]) <= by.rank(notes[notes.len() - 1]));
                }
            } else {
                assert(res[i] == inner[i] && res[j] == inner[j]);
            }
        }
        inner.lemma_filter_push(last, p);
        rest.lemma_filter_push(note, p);
        rest.lemma_filter_push(last, p);
        notes.lemma_filter_push(note, p);
        assert(rest.push(last) =~= notes);
        if p(note) {
            assert(!p(last));
        }
    }
}

/// Sorting is stable: the result ascends in rank, and the notes of any one
/// rank stand in it as they stood in the list.
pub proof fn law_sorted_is_the_stable_sort(notes: Seq<ChannelNote>, by: NoteOrder, rank: int)
    ensures
        in_rank_order(sorted(notes, by), by),
        sorted(notes, by).len() == notes.len(),
        sorted(notes, by).filter(ranked(by, rank)) == notes.filter(ranked(by, rank)),
    decreases notes.len(),
{
    if notes.len() > 0 {
        let rest = notes.drop_last();
        law_sorted_is_the_stable_sort(rest, by, rank);
        lemma_inserted(sorted(rest, by), notes.last(), by, rank);
        sorted(rest, by).lemma_filter_push(notes.last(), ranked(by, rank));
        rest.lemma_filter_push(notes.last(), ranked(by, rank));
        assert(rest.push(notes.last()) =~= notes);
    }
}

proof fn lemma_inserted_at(
    notes: Seq<ChannelNote>,
    note: ChannelNote,
    by: NoteOrder,
    at: int,
)
    requires
        0 <= at <= notes.len(),
        at == 0 || by.rank(notes[at - 1]) <= by.rank(note),
        forall|i: int| at <= i < notes.len() ==> by.rank(#[trigger] notes[i]) > by.rank(note),
    ensures
        inserted(notes, note, by) == notes.insert(at, note),
    decreases notes.len(),
{
    if at < notes.len() {
        let rest = notes.drop_last();
        assert(by.rank(notes[notes.len() - 1]) > by.rank(note));
        assert forall|i: int| at <= i < rest.len() implies by.rank(#[trigger] rest[i]) > by.rank(
            note,
        ) by {
            assert(rest[i] == notes[i]);
        }
        lemma_inserted_at(rest, note, by, at);
        assert(notes.insert(at, note) =~= rest.insert(at, note).push(notes.last()));
    } else {
        assert(notes.insert(at, note) =~= notes.push(note));
    }
}

/// Sorts `notes` stably.
fn sort_notes(notes: &[ChannelNote], by: NoteOrder) -> (res: Vec<ChannelNote>)
    ensures
        res@ == sorted(notes@, by),
{
    let mut res: Vec<ChannelNote> = Vec::new();
    let mut i: usize = 0;
    while i < notes.len()
        invariant
            i <= notes@.len(),
            res@ == sorted(notes@.take(i as int), by),
        decreases notes@.len() - i,
    {
        let note: ChannelNote = notes[i];
        let mut at: usize = res.len();
        while at > 0 && by.after(&res[at - 1], &note)
            invariant
                at <= res@.len(),
                forall|j: int|
                    at <= j < res@.len() ==> by.rank(#[trigger] res@[j]) > by.rank(note),
            decreases at,
        {
            at = at - 1;
        }
        proof {
            lemma_inserted_at(res@, note, by, at as int);
            assert(notes@.take(i + 1).drop_last() =~= notes@.take(i as int));
        }
        res.insert(at, note);
        i = i + 1;
    }
    assert(notes@.take(i as int) =~= notes@);
    res
}

/// The `own` notes ahead of the `other` ones, each sorted.
pub open spec fn preference(own: Seq<ChannelNote>, other: Seq<ChannelNote>, by: NoteOrder) -> Seq<
    ChannelNote,
> {
    sorted(own, by) + sorted(other, by)
}

/// Order `own` notes ahead of `other`, each sorted. Used to build a
/// covering-preference order over the two tiers.
pub fn ordered(own: &[ChannelNote], other: &[ChannelNote], by: NoteOrder) -> (res: Vec<ChannelNote>)
    ensures
        res@ == preference(own@, other@, by),
{
    let mut result = sort_notes(own, by);
    let mut rest = sort_notes(other, by);
    result.append(&mut rest);
    result
}

/// The value of a list of notes.
pub open spec fn total_value(notes: Seq<ChannelNote>) -> nat
    decreases notes.len(),
{
    if notes.len() == 0 {
        0
    } else {
        total_value(notes.drop_last()) + notes.last().value as nat
    }
}

pub open spec fn id_of() -> spec_fn(ChannelNote) -> NoteId {
    |note: ChannelNote| note.note_id
}

/// The first `n` notes cover `amount`, fewer do not, and they fit a
/// transaction.
pub open spec fn covers(notes: Seq<ChannelNote>, amount: Value, n: int) -> bool {
    &&& 0 <= n <= notes.len()
    &&& n <= MAX_TRANSACTION_INPUTS
    &&& total_value(notes.take(n)) >= amount
    &&& forall|m: int| 0 <= m < n ==> total_value(#[trigger] notes.take(m)) < amount
}

/// The shortest covering run from the front, if one fits a transaction.
pub open spec fn cover(notes: Seq<ChannelNote>, amount: Value) -> Option<Seq<NoteId>> {
    if exists|n: int| covers(notes, amount, n) {
        let n = choose|n: int| covers(notes, amount, n);
        Some(notes.take(n).map_values(id_of()))
    } else {
        None
    }
}

proof fn lemma_cover_is(notes: Seq<ChannelNote>, amount: Value, n: int)
    requires
        covers(notes, amount, n),
    ensures
        cover(notes, amount) == Some(notes.take(n).map_values(id_of())),
{
    let m = choose|m: int| covers(notes, amount, m);
    if m < n {
        assert(total_value(notes.take(m)) < amount);
    } else if n < m {
        assert(total_value(notes.take(n)) < amount);
    }
}

proof fn lemma_total_value_take(notes: Seq<ChannelNote>, n: int)
    requires
        0 <= n < notes.len(),
    ensures
        total_value(notes.take(n + 1)) == total_value(notes.take(n)) + notes[n].value,
{
    assert(notes.take(n + 1).drop_last() =~= notes.take(n));
}

proof fn lemma_total_value_grows(notes: Seq<ChannelNote>, m: int, n: int)
    requires
        0 <= m <= n <= notes.len(),
    ensures
        total_value(notes.take(m)) <= total_value(notes.take(n)),
    decreases n - m,
{
    if m < n {
        lemma_total_value_take(notes, n - 1);
        lemma_total_value_grows(notes, m, n - 1);
    }
}

/// Accumulates notes until their value covers `amount`, returning the selected
/// ids. `None` if the notes cannot cover `amount` within the input limit.
pub fn cover_from(notes: &[ChannelNote], amount: Value) -> (res: Option<Vec<NoteId>>)
    ensures
        match res {
            Some(ids) => cover(notes@, amount) == Some(ids@) && covers(
                notes@,
                amount,
                ids@.len() as int,
            ) && ids@ == notes@.take(ids@.len() as int).map_values(id_of()),
            None => cover(notes@, amount) is None,
        },
{
    let mut selected: Vec<NoteId> = Vec::new();
    let mut missing: u64 = amount;
    let mut i: usize = 0;
    while i < notes.len() && missing > 0
        invariant
            i <= notes@.len(),
            i <= MAX_TRANSACTION_INPUTS,
            selected@.len() == i,
            selected@ == notes@.take(i as int).map_values(id_of()),
            missing <= amount,
            missing > 0 ==> total_value(notes@.take(i as int)) == amount - missing,
            missing == 0 ==> total_value(notes@.take(i as int)) >= amount,
            forall|m: int| 0 <= m < i ==> total_value(#[trigger] notes@.take(m)) < amount,
        decreases notes@.len() - i,
    {
        if selected.len() == MAX_TRANSACTION_INPUTS {
            proof {
                if exists|n: int| covers(notes@, amount, n) {
                    let n = choose|n: int| covers(notes@, amount, n);
                    lemma_total_value_grows(notes@, n, i as int);
                }
            }
            return None;
        }
        proof {
            lemma_total_value_take(notes@, i as int);
        }
        let value: u64 = notes[i].value;
        selected.push(notes[i].note_id);
        assert(selected@ =~= notes@.take(i + 1).map_values(id_of()));
        missing = if value < missing {
            missing - value
        } else {
            0
        };
        i = i + 1;
    }
    if missing == 0 {
        proof {
            lemma_cover_is(notes@, amount, i as int);
        }
        Some(selected)
    } else {
        proof {
            if exists|n: int| covers(notes@, amount, n) {
                let n = choose|n: int| covers(notes@, amount, n);
                lemma_total_value_grows(notes@, n, i as int);
            }
        }
        None
    }
}

pub open spec fn owned_by(key: ZkPublicKey) -> spec_fn(ChannelNote) -> bool {
    |note: ChannelNote| note.pk == key
}

pub open spec fn not_owned_by(key: ZkPublicKey) -> spec_fn(ChannelNote) -> bool {
    |note: ChannelNote| note.pk != key
}

/// A note so small that no transaction of such notes covers `amount`, and not
/// taken yet.
pub open spec fn is_loose_dust(taken: Set<NoteId>, amount: Value) -> spec_fn(ChannelNote) -> bool {
    |note: ChannelNote|
        !taken.contains(note.note_id) && note.value * MAX_TRANSACTION_INPUTS < amount
}

/// The value the pool gives an id; the last note of the id counts.
pub open spec fn value_of(pool: Seq<ChannelNote>, id: NoteId) -> Option<Value>
    decreases pool.len(),
{
    if pool.len() == 0 {
        None
    } else if pool.last().note_id == id {
        Some(pool.last().value)
    } else {
        value_of(pool.drop_last(), id)
    }
}

fn find_value(pool: &[ChannelNote], id: &NoteId) -> (res: Option<Value>)
    ensures
        res == value_of(pool@, *id),
{
    assert(pool@.take(pool@.len() as int) =~= pool@);
    let mut i: usize = pool.len();
    while i > 0
        invariant
            i <= pool@.len(),
            value_of(pool@, *id) == value_of(pool@.take(i as int), *id),
        decreases i,
    {
        assert(pool@.take(i as int).drop_last() =~= pool@.take(i - 1));
        if pool[i - 1].note_id == *id {
            return Some(pool[i - 1].value);
        }
        i = i - 1;
    }
    None
}

pub open spec fn note_text(id: NoteId) -> Seq<char> {
    hex_chars(id.0.bytes())
}

pub open spec fn too_many_text(n: nat) -> Seq<char> {
    "explicit withdraw inputs ("@ + decimal(n) + ") exceed the 255-input limit"@
}

pub open spec fn duplicate_text(id: NoteId) -> Seq<char> {
    "duplicate explicit withdraw input: "@ + note_text(id)
}

pub open spec fn untracked_text(id: NoteId) -> Seq<char> {
    "explicit withdraw input is not a spendable channel note: "@ + note_text(id)
}

pub open spec fn short_text(sum: nat, amount: Value) -> Seq<char> {
    "explicit withdraw inputs cover "@ + decimal(sum) + ", need "@ + decimal(amount as nat)
}

pub open spec fn insufficient_text(total: nat, amount: Value) -> Seq<char> {
    "insufficient channel funds: have "@ + decimal(total) + ", need "@ + decimal(amount as nat)
}

/// What `ids` from position `i` on are worth on top of `sum`, or the reason
/// why they cannot be spent.
pub open spec fn explicit_value(
    pool: Seq<ChannelNote>,
    ids: Seq<NoteId>,
    i: int,
    sum: nat,
) -> Result<nat, Seq<char>>
    decreases ids.len() - i,
{
    if i < 0 || i >= ids.len() {
        Ok(sum)
    } else if ids.take(i).contains(ids[i]) {
        Err(duplicate_text(ids[i]))
    } else {
        match value_of(pool, ids[i]) {
            None => Err(untracked_text(ids[i])),
            Some(value) => if sum + value > u64::MAX {
                Err("explicit withdraw input value overflow"@)
            } else {
                explicit_value(pool, ids, i + 1, (sum + value) as nat)
            },
        }
    }
}

/// The caller's own choice: returned as it is, when it is spendable and
/// covers `amount`.
pub open spec fn explicit_selection(
    pool: Seq<ChannelNote>,
    amount: Value,
    ids: Seq<NoteId>,
) -> Result<Seq<NoteId>, Seq<char>> {
    if ids.len() > MAX_TRANSACTION_INPUTS {
        Err(too_many_text(ids.len()))
    } else {
        match explicit_value(pool, ids, 0, 0) {
            Err(text) => Err(text),
            Ok(sum) => if sum < amount {
                Err(short_text(sum, amount))
            } else {
                Ok(ids)
            },
        }
    }
}

/// A covering set by preference: own notes first and among each tier the
/// newest first; where these do not cover within the input limit, the largest
/// first.
pub open spec fn preferred_cover(
    own: Seq<ChannelNote>,
    other: Seq<ChannelNote>,
    amount: Value,
) -> Option<Seq<NoteId>> {
    match cover(preference(own, other, NoteOrder::NewestFirst), amount) {
        Some(ids) => Some(ids),
        None => cover(preference(own, other, NoteOrder::LargestFirst), amount),
    }
}

/// `ids` with as many of the dust notes as the input limit leaves room for.
pub open spec fn swept(ids: Seq<NoteId>, pool: Seq<ChannelNote>, amount: Value) -> Seq<NoteId> {
    let dust = sorted(
        pool.filter(is_loose_dust(ids.to_set(), amount)),
        NoteOrder::SmallestOldestFirst,
    ).map_values(id_of());
    if ids.len() + dust.len() <= MAX_TRANSACTION_INPUTS {
        ids + dust
    } else if ids.len() >= MAX_TRANSACTION_INPUTS {
        ids
    } else {
        ids + dust.take(MAX_TRANSACTION_INPUTS - ids.len())
    }
}

/// The sequencer's choice.
pub open spec fn auto_selection(
    pool: Seq<ChannelNote>,
    own_key: ZkPublicKey,
    amount: Value,
) -> Result<Seq<NoteId>, Seq<char>> {
    let own = pool.filter(owned_by(own_key));
    let other = pool.filter(not_owned_by(own_key));
    let total = total_value(own + other);
    if total > u64::MAX {
        Err("channel note value overflow"@)
    } else if total < amount {
        Err(insufficient_text(total, amount))
    } else {
        match preferred_cover(own, other, amount) {
            None => Err("cannot cover withdrawal under the 255-input limit"@),
            Some(ids) => Ok(swept(ids, own + other, amount)),
        }
    }
}

/// The notes that fund a withdrawal, or the reason why none do.
pub open spec fn selection(
    pool: Seq<ChannelNote>,
    own_key: ZkPublicKey,
    amount: Value,
    choice: WithdrawInputs,
) -> Result<Seq<NoteId>, Seq<char>> {
    match choice {
        WithdrawInputs::Explicit(ids) => explicit_selection(pool, amount, ids@),
        WithdrawInputs::Auto => auto_selection(pool, own_key, amount),
    }
}

fn note_string(id: &NoteId) -> (res: String)
    ensures
        res@ == note_text(*id),
{
    hex_encode(id.0.to_bytes().as_slice())
}

fn select_explicit(pool: &[ChannelNote], amount: Value, ids: &Vec<NoteId>) -> (res: Result<
    Vec<NoteId>,
    Error,
>)
    ensures
        match res {
            Ok(selected) => explicit_selection(pool@, amount, ids@) == Ok::<
                Seq<NoteId>,
                Seq<char>,
            >(selected@),
            Err(Error::Network(text)) => explicit_selection(pool@, amount, ids@) == Err::<
                Seq<NoteId>,
                Seq<char>,
            >(text@),
            Err(_) => false,
        },
{
    if ids.len() > MAX_TRANSACTION_INPUTS {
        let mut text = "explicit withdraw inputs (".to_string();
        push_decimal(&mut text, ids.len() as u64);
        text.append(") exceed the 255-input limit");
        assert(text@ =~= too_many_text(ids@.len()));
        return Err(Error::Network(text));
    }
    let mut seen: KeySet<NoteId> = KeySet::new();
    let mut sum: u64 = 0;
    let mut i: usize = 0;
    assert(ids@.take(0).to_set() =~= Set::<NoteId>::empty());
    while i < ids.len()
        invariant
            ids@.len() <= MAX_TRANSACTION_INPUTS,
            i <= ids@.len(),
            seen@ == ids@.take(i as int).to_set(),
            explicit_value(pool@, ids@, 0, 0) == explicit_value(
                pool@,
                ids@,
                i as int,
                sum as nat,
            ),
        decreases ids@.len() - i,
    {
        let id: NoteId = ids[i];
        proof {
            assert(ids@.take(i + 1) =~= ids@.take(i as int).push(id));
            ids@.take(i as int).lemma_push_to_set_commute(id);
        }
        if !seen.insert(id) {
            assert(ids@.take(i as int).contains(id));
            let text = "duplicate explicit withdraw input: ".to_string().concat(
                note_string(&id).as_str(),
            );
            assert(text@ =~= duplicate_text(id));
            return Err(Error::Network(text));
        }
        assert(!ids@.take(i as int).contains(id));
        match find_value(pool, &id) {
            None => {
                let text = "explicit withdraw input is not a spendable channel note: ".to_string(
                ).concat(note_string(&id).as_str());
                assert(text@ =~= untracked_text(id));
                return Err(Error::Network(text));
            },
            Some(value) => {
                if value > u64::MAX - sum {
                    return Err(
                        Error::Network("explicit withdraw input value overflow".to_string()),
                    );
                }
                sum = sum + value;
            },
        }
        i = i + 1;
    }
    if sum < amount {
        let mut text = "explicit withdraw inputs cover ".to_string();
        push_decimal(&mut text, sum);
        text.append(", need ");
        push_decimal(&mut text, amount);
        assert(text@ =~= short_text(sum as nat, amount));
        return Err(Error::Network(text));
    }
    let mut selected: Vec<NoteId> = Vec::new();
    let mut k: usize = 0;
    while k < ids.len()
        invariant
            k <= ids@.len(),
            selected@ == ids@.take(k as int),
        decreases ids@.len() - k,
    {
        selected.push(ids[k]);
        assert(selected@ =~= ids@.take(k + 1));
        k = k + 1;
    }
    assert(ids@.take(k as int) =~= ids@);
    Ok(selected)
}

/// The value of a list of notes, if sixty-four bits hold it.
fn sum_values(notes: &[ChannelNote]) -> (res: Option<u64>)
    ensures
        match res {
            Some(total) => total == total_value(notes@),
            None => total_value(notes@) > u64::MAX,
        },
{
    let mut total: u64 = 0;
    let mut i: usize = 0;
    while i < notes.len()
        invariant
            i <= notes@.len(),
            total == total_value(notes@.take(i as int)),
        decreases notes@.len() - i,
    {
        proof {
            lemma_total_value_take(notes@, i as int);
        }
        let value: u64 = notes[i].value;
        if value > u64::MAX - total {
            proof {
                lemma_total_value_grows(notes@, i + 1, notes@.len() as int);
                assert(notes@.take(notes@.len() as int) =~= notes@);
            }
            return None;
        }
        total = total + value;
        i = i + 1;
    }
    assert(notes@.take(i as int) =~= notes@);
    Some(total)
}

/// The dust that goes along with a covering set.
fn sweep(selected: Vec<NoteId>, pool: &[ChannelNote], amount: Value) -> (res: Vec<NoteId>)
    requires
        selected@.len() <= MAX_TRANSACTION_INPUTS,
    ensures
        res@ == swept(selected@, pool@, amount),
{
    let mut taken: KeySet<NoteId> = KeySet::new();
    let mut t: usize = 0;
    assert(selected@.take(0).to_set() =~= Set::<NoteId>::empty());
    while t < selected.len()
        invariant
            t <= selected@.len(),
            taken@ == selected@.take(t as int).to_set(),
        decreases selected@.len() - t,
    {
        proof {
            assert(selected@.take(t + 1) =~= selected@.take(t as int).push(selected@[t as int]));
            selected@.take(t as int).lemma_push_to_set_commute(selected@[t as int]);
        }
        taken.insert(selected[t]);
        t = t + 1;
    }
    assert(selected@.take(t as int) =~= selected@);
    let mut dust: Vec<ChannelNote> = Vec::new();
    let ghost p = is_loose_dust(selected@.to_set(), amount);
    let mut i: usize = 0;
    assert(pool@.take(0) =~= Seq::<ChannelNote>::empty());
    while i < pool.len()
        invariant
            i <= pool@.len(),
            taken@ == selected@.to_set(),
            p == is_loose_dust(selected@.to_set(), amount),
            dust@ == pool@.take(i as int).filter(p),
        decreases pool@.len() - i,
    {
        proof {
            assert(pool@.take(i + 1) =~= pool@.take(i as int).push(pool@[i as int]));
            pool@.take(i as int).lemma_filter_push(pool@[i as int], p);
        }
        let note: ChannelNote = pool[i];
        assert(note.value * MAX_TRANSACTION_INPUTS <= u64::MAX * 255) by (nonlinear_arith)
            requires
                note.value <= u64::MAX,
                MAX_TRANSACTION_INPUTS == 255,
        ;
        let worth: u128 = note.value as u128 * MAX_TRANSACTION_INPUTS as u128;
        if !taken.contains(&note.note_id) && worth < amount as u128 {
            dust.push(note);
        }
        i = i + 1;
    }
    assert(pool@.take(i as int) =~= pool@);
    let dust = sort_notes(dust.as_slice(), NoteOrder::SmallestOldestFirst);
    let ghost ids = dust@.map_values(id_of());
    let ghost cover = selected@;
    let mut selected = selected;
    let mut k: usize = 0;
    assert(cover + ids.take(0) =~= cover);
    while k < dust.len() && selected.len() < MAX_TRANSACTION_INPUTS
        invariant
            k <= dust@.len(),
            ids == dust@.map_values(id_of()),
            cover.len() <= MAX_TRANSACTION_INPUTS,
            selected@ == cover + ids.take(k as int),
            selected@.len() <= MAX_TRANSACTION_INPUTS,
        decreases dust@.len() - k,
    {
        selected.push(dust[k].note_id);
        assert(selected@ =~= cover + ids.take(k + 1));
        k = k + 1;
    }
    proof {
        if k == dust@.len() {
            assert(ids.take(k as int) =~= ids);
        }
        if cover.len() + ids.len() <= MAX_TRANSACTION_INPUTS {
            assert(k == dust@.len());
        } else if cover.len() >= MAX_TRANSACTION_INPUTS {
            assert(selected@ =~= cover);
        } else {
            assert(k == MAX_TRANSACTION_INPUTS - cover.len());
        }
        assert(selected@ =~= swept(cover, pool@, amount));
    }
    selected
}

fn select_auto(pool: &[ChannelNote], own_key: ZkPublicKey, amount: Value) -> (res: Result<
    Vec<NoteId>,
    Error,
>)
    ensures
        match res {
            Ok(selected) => auto_selection(pool@, own_key, amount) == Ok::<
                Seq<NoteId>,
                Seq<char>,
            >(selected@),
            Err(Error::Network(text)) => auto_selection(pool@, own_key, amount) == Err::<
                Seq<NoteId>,
                Seq<char>,
            >(text@),
            Err(_) => false,
        },
{
    let mut own: Vec<ChannelNote> = Vec::new();
    let mut other: Vec<ChannelNote> = Vec::new();
    let ghost p = owned_by(own_key);
    let ghost q = not_owned_by(own_key);
    let mut i: usize = 0;
    assert(pool@.take(0) =~= Seq::<ChannelNote>::empty());
    while i < pool.len()
        invariant
            i <= pool@.len(),
            p == owned_by(own_key),
            q == not_owned_by(own_key),
            own@ == pool@.take(i as int).filter(p),
            other@ == pool@.take(i as int).filter(q),
        decreases pool@.len() - i,
    {
        proof {
            assert(pool@.take(i + 1) =~= pool@.take(i as int).push(pool@[i as int]));
            pool@.take(i as int).lemma_filter_push(pool@[i as int], p);
            pool@.take(i as int).lemma_filter_push(pool@[i as int], q);
        }
        if pool[i].pk == own_key {
            own.push(pool[i]);
        } else {
            other.push(pool[i]);
        }
        i = i + 1;
    }
    assert(pool@.take(i as int) =~= pool@);
    let mut tiers: Vec<ChannelNote> = Vec::new();
    let mut k: usize = 0;
    while k < own.len()
        invariant
            k <= own@.len(),
            tiers@ == own@.take(k as int),
        decreases own@.len() - k,
    {
        tiers.push(own[k]);
        assert(tiers@ =~= own@.take(k + 1));
        k = k + 1;
    }
    assert(own@.take(k as int) =~= own@);
    assert(own@ + other@.take(0) =~= own@);
    let mut m: usize = 0;
    while m < other.len()
        invariant
            m <= other@.len(),
            tiers@ == own@ + other@.take(m as int),
        decreases other@.len() - m,
    {
        tiers.push(other[m]);
        assert(tiers@ =~= own@ + other@.take(m + 1));
        m = m + 1;
    }
    assert(other@.take(m as int) =~= other@);

    let total: u64 = match sum_values(tiers.as_slice()) {
        Some(total) => total,
        None => {
            return Err(Error::Network("channel note value overflow".to_string()));
        },
    };
    if total < amount {
        let mut text = "insufficient channel funds: have ".to_string();
        push_decimal(&mut text, total);
        text.append(", need ");
        push_decimal(&mut text, amount);
        assert(text@ =~= insufficient_text(total as nat, amount));
        return Err(Error::Network(text));
    }
    // Spending recent notes leaves the older, matured positions intact; the
    // largest first where the recent ones cannot cover within the limit.
    let newest = ordered(own.as_slice(), other.as_slice(), NoteOrder::NewestFirst);
    let selected: Vec<NoteId> = match cover_from(newest.as_slice(), amount) {
        Some(ids) => ids,
        None => {
            let largest = ordered(own.as_slice(), other.as_slice(), NoteOrder::LargestFirst);
            match cover_from(largest.as_slice(), amount) {
                Some(ids) => ids,
                None => {
                    return Err(
                        Error::Network(
                            "cannot cover withdrawal under the 255-input limit".to_string(),
                        ),
                    );
                },
            }
        },
    };
    // Dust goes into the remaining slots, so that it does not pile up.
    Ok(sweep(selected, tiers.as_slice(), amount))
}

/// Select the channel notes that fund a withdrawal of `amount`.
///
/// The spendable pool is the whole tip view: a note on the branch can be spent
/// whether or not it is final. `own_key` is the sequencer's own key, used to
/// prefer notes it controls.
pub fn select_channel_notes(
    view: &ChannelWalletView,
    own_key: ZkPublicKey,
    amount: Value,
    choice: &WithdrawInputs,
) -> (res: Result<Vec<NoteId>, Error>)
    ensures
        match res {
            Ok(selected) => selection(view.finalized@ + view.unfinalized@, own_key, amount, *choice)
                == Ok::<Seq<NoteId>, Seq<char>>(selected@),
            Err(Error::Network(text)) => selection(
                view.finalized@ + view.unfinalized@,
                own_key,
                amount,
                *choice,
            ) == Err::<Seq<NoteId>, Seq<char>>(text@),
            Err(_) => false,
        },
{
    let mut pool: Vec<ChannelNote> = Vec::new();
    let mut i: usize = 0;
    while i < view.finalized.len()
        invariant
            i <= view.finalized@.len(),
            pool@ == view.finalized@.take(i as int),
        decreases view.finalized@.len() - i,
    {
        pool.push(view.finalized[i]);
        assert(pool@ =~= view.finalized@.take(i + 1));
        i = i + 1;
    }
    assert(view.finalized@.take(i as int) =~= view.finalized@);
    assert(view.finalized@ + view.unfinalized@.take(0) =~= view.finalized@);
    let mut k: usize = 0;
    while k < view.unfinalized.len()
        invariant
            k <= view.unfinalized@.len(),
            pool@ == view.finalized@ + view.unfinalized@.take(k as int),
        decreases view.unfinalized@.len() - k,
    {
        pool.push(view.unfinalized[k]);
        assert(pool@ =~= view.finalized@ + view.unfinalized@.take(k + 1));
        k = k + 1;
    }
    assert(view.unfinalized@.take(k as int) =~= view.unfinalized@);
    match choice {
        WithdrawInputs::Explicit(ids) => select_explicit(pool.as_slice(), amount, ids),
        WithdrawInputs::Auto => select_auto(pool.as_slice(), own_key, amount),
    }
}

} // verus!
