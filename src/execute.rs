//! Routing a client's command to the transaction log or the hash engine.
use crate::command::{
    mutations_model, staged_value, Command, CommandOutput, DeleteCommand, GetCommand, Mutation,
    MutationModel, PutCommand, StorageCommand,
};
use crate::hash_storage::{
    entry_key, key_hash, same_shape_but, text_record_len, text_value, HashStorage, StoreError, StoreModel,
    MAX_BUCKETS, MAX_LEVEL,
};
use crate::record::PAGE_RECORD_SPACE;
use crate::wal::{Wal, WalModel};
use crate::parse::{parse_command, parse_spec, CommandModel, ParseError};
use vstd::prelude::*;
use vstd::utf8::{encode_utf8, valid_utf8};

verus! {

/// Why a command failed.
#[derive(Clone, Copy, Debug, PartialEq, Eq)]
pub enum ExecError {
    /// The transaction named is not open.
    UnknownTransaction,
    /// A record cannot be placed in any bucket.
    OversizedRecord,
    /// The buckets file cannot number another bucket.
    StoreFull,
    /// A stored value is not valid UTF-8 text.
    CorruptPage,
    /// No fresh transaction ID could be made.
    NoFreshTransactionId,
}

/// Why a command line failed.
#[derive(Clone, Copy, Debug, PartialEq, Eq)]
pub enum UserError {
    /// The line is not a command.
    Parse(ParseError),
    /// The command failed.
    Exec(ExecError),
}

/// The command error for an engine error.
pub open spec fn store_error_spec(e: StoreError) -> ExecError {
    match e {
        StoreError::OversizedRecord => ExecError::OversizedRecord,
        StoreError::StoreFull => ExecError::StoreFull,
        StoreError::CorruptPage => ExecError::CorruptPage,
    }
}

fn store_error(e: StoreError) -> (r: ExecError)
    ensures
        r == store_error_spec(e),
{
    match e {
        StoreError::OversizedRecord => ExecError::OversizedRecord,
        StoreError::StoreFull => ExecError::StoreFull,
        StoreError::CorruptPage => ExecError::CorruptPage,
    }
}

/// The store's contents after one mutation.
pub open spec fn apply_mutation(m: StoreModel, x: MutationModel) -> StoreModel {
    if x.0 {
        m.insert(entry_key(x.1), encode_utf8(x.2))
    } else {
        m.remove(entry_key(x.1))
    }
}

/// The store's contents after mutations applied in order.
pub open spec fn apply_mutations(m: StoreModel, xs: Seq<MutationModel>) -> StoreModel
    decreases xs.len(),
{
    if xs.len() == 0 {
        m
    } else {
        apply_mutation(apply_mutations(m, xs.drop_last()), xs.last())
    }
}

/// The transaction ID, as text.
pub open spec fn tid_model(tid: Option<&str>) -> Option<Seq<char>> {
    match tid {
        Some(t) => Some(t@),
        None => None,
    }
}

/// What the open transaction `tid` has staged for `k`.
pub open spec fn staged_for(w: WalModel, tid: Option<Seq<char>>, k: Seq<char>) -> Option<Option<Seq<char>>> {
    match tid {
        Some(t) => if w.contains_key(t) {
            staged_value(w[t], k)
        } else {
            None
        },
        None => None,
    }
}

/// The answer to reading `k` from the store's contents `s`.
pub open spec fn store_answer(s: StoreModel, k: Seq<char>, r: Result<CommandOutput, ExecError>) -> bool {
    match r {
        Ok(CommandOutput::Found(v)) => text_value(s, k) == Some(encode_utf8(v@)),
        Ok(CommandOutput::NotFound(k2)) => k2@ == k && text_value(s, k) is None,
        Ok(_) => false,
        Err(e) => e == ExecError::CorruptPage && text_value(s, k) is Some && !valid_utf8(
            text_value(s, k)->0,
        ),
    }
}

/// The answer to reading `k`: what the transaction staged, else the store.
pub open spec fn get_answer(
    s: StoreModel,
    w: WalModel,
    tid: Option<Seq<char>>,
    k: Seq<char>,
    r: Result<CommandOutput, ExecError>,
) -> bool {
    match staged_for(w, tid, k) {
        Some(Some(v)) => match r {
            Ok(CommandOutput::Found(x)) => x@ == v,
            _ => false,
        },
        Some(None) => match r {
            Ok(CommandOutput::NotFound(x)) => x@ == k,
            _ => false,
        },
        None => store_answer(s, k, r),
    }
}

/// Staging a mutation in transaction `tid`, or refusing where it is not open.
pub open spec fn staged_step(
    s: HashStorage,
    w: WalModel,
    t: Seq<char>,
    x: MutationModel,
    out: CommandOutput,
    s2: HashStorage,
    w2: WalModel,
    r: Result<CommandOutput, ExecError>,
) -> bool {
    &&& s2 == s
    &&& if w.contains_key(t) {
        r == Ok::<CommandOutput, ExecError>(out) && w2 == w.insert(t, w[t].push(x))
    } else {
        r == Err::<CommandOutput, ExecError>(ExecError::UnknownTransaction) && w2 == w
    }
}

/// What running command `c` in transaction `tid` does: from the engine
/// `s` and the log `w` to `s2` and `w2`, answering `r`.
pub open spec fn command_effect(
    s: HashStorage,
    w: WalModel,
    c: CommandModel,
    tid: Option<Seq<char>>,
    s2: HashStorage,
    w2: WalModel,
    r: Result<CommandOutput, ExecError>,
) -> bool {
    match c {
        CommandModel::Get(k) => {
            &&& s2 == s
            &&& w2 == w
            &&& get_answer(s@, w, tid, k, r)
        },
        CommandModel::Put(k, v) => match tid {
            Some(t) => staged_step(s, w, t, (true, k, v), CommandOutput::Put, s2, w2, r),
            None => {
                &&& w2 == w
                &&& (r is Ok <==> s.put_fits(k, v) && s.has_room())
                &&& (r == Err::<CommandOutput, ExecError>(ExecError::OversizedRecord) <==> !s.put_fits(k, v))
                &&& (r is Ok ==> r->Ok_0 == CommandOutput::Put && s2@ == s@.insert(entry_key(k), encode_utf8(v)))
                &&& (r is Err ==> s2 == s && (r->Err_0 == ExecError::OversizedRecord || r->Err_0 == ExecError::StoreFull))
            },
        },
        CommandModel::Delete(k) => match tid {
            Some(t) => staged_step(s, w, t, (false, k, Seq::empty()), CommandOutput::Delete, s2, w2, r),
            None => {
                &&& w2 == w
                &&& r == Ok::<CommandOutput, ExecError>(CommandOutput::Delete)
                &&& s2@ == s@.remove(entry_key(k))
                &&& same_shape_but(s, s2, s.bucket_for(key_hash(k)))
            },
        },
        CommandModel::Begin => {
            &&& s2 == s
            &&& (r is Ok ==> {
                &&& r->Ok_0 is Begin
                &&& !w.contains_key(r->Ok_0->Begin_0@)
                &&& w2 == w.insert(r->Ok_0->Begin_0@, Seq::empty())
            })
            &&& (r is Err ==> r->Err_0 == ExecError::NoFreshTransactionId && w2 == w)
        },
        CommandModel::Commit => match tid {
            Some(t) => if w.contains_key(t) {
                &&& w2 == w.remove(t)
                &&& best_effort(s@, w[t], s2@, r is Ok)
                &&& (r is Ok ==> r->Ok_0 == CommandOutput::Commit && s2@ == apply_mutations(s@, w[t]))
                &&& (r is Err ==> r->Err_0 == ExecError::OversizedRecord || r->Err_0 == ExecError::StoreFull)
                &&& (commit_fits(s, w[t]) ==> r is Ok)
            } else {
                r == Err::<CommandOutput, ExecError>(ExecError::UnknownTransaction)
                    && w2 == w && s2 == s
            },
            None => r == Err::<CommandOutput, ExecError>(ExecError::UnknownTransaction)
                && w2 == w && s2 == s,
        },
        CommandModel::Rollback => s2 == s && match tid {
            Some(t) => if w.contains_key(t) {
                r == Ok::<CommandOutput, ExecError>(CommandOutput::Rollback) && w2 == w.remove(t)
            } else {
                r == Err::<CommandOutput, ExecError>(ExecError::UnknownTransaction) && w2 == w
            },
            None => r == Err::<CommandOutput, ExecError>(ExecError::UnknownTransaction) && w2 == w,
        },
        CommandModel::Exit => r == Ok::<CommandOutput, ExecError>(CommandOutput::Exit)
            && s2 == s && w2 == w,
    }
}

/// The contents after those of the mutations that `mask` marks are applied
/// in order.
pub open spec fn apply_masked(m: StoreModel, xs: Seq<MutationModel>, mask: Seq<bool>) -> StoreModel
    decreases xs.len(),
{
    if xs.len() == 0 || mask.len() == 0 {
        m
    } else {
        let prev = apply_masked(m, xs.drop_last(), mask.drop_last());
        if mask.last() {
            apply_mutation(prev, xs.last())
        } else {
            prev
        }
    }
}

/// A best-effort application of `xs` to `m` gave `m2`: every delete and
/// some of the puts were applied in order, all of them exactly when
/// `all_applied`.
pub open spec fn best_effort(m: StoreModel, xs: Seq<MutationModel>, m2: StoreModel, all_applied: bool) -> bool {
    exists|mask: Seq<bool>| {
        &&& mask.len() == xs.len()
        &&& forall|i: int| 0 <= i < xs.len() && !xs[i].0 ==> #[trigger] mask[i]
        &&& m2 == apply_masked(m, xs, mask)
        &&& all_applied == (forall|i: int| 0 <= i < xs.len() ==> #[trigger] mask[i])
    }
}

/// The room that the puts of `xs` ask for.
pub open spec fn staged_put_bytes(xs: Seq<MutationModel>) -> nat
    decreases xs.len(),
{
    if xs.len() == 0 {
        0
    } else {
        staged_put_bytes(xs.drop_last()) + if xs.last().0 {
            text_record_len(xs.last().1, xs.last().2)
        } else {
            0
        }
    }
}

/// The number of puts in `xs`.
pub open spec fn staged_puts(xs: Seq<MutationModel>) -> nat
    decreases xs.len(),
{
    if xs.len() == 0 {
        0
    } else {
        staged_puts(xs.drop_last()) + if xs.last().0 {
            1nat
        } else {
            0
        }
    }
}

/// The store has room for every put of `xs` together: their records and
/// the store's fit in one page, and the buckets file can number the
/// buckets that their splits may add.
pub open spec fn commit_fits(s: HashStorage, xs: Seq<MutationModel>) -> bool {
    &&& s.stored_bytes() + staged_put_bytes(xs) <= PAGE_RECORD_SPACE
    &&& s.count() + MAX_LEVEL * staged_puts(xs) <= MAX_BUCKETS
}

proof fn lemma_budget_prefix(xs: Seq<MutationModel>, i: int)
    requires
        0 <= i <= xs.len(),
    ensures
        staged_put_bytes(xs.subrange(0, i)) <= staged_put_bytes(xs),
        staged_puts(xs.subrange(0, i)) <= staged_puts(xs),
    decreases xs.len() - i,
{
    if i == xs.len() {
        assert(xs.subrange(0, i) =~= xs);
    } else {
        lemma_budget_prefix(xs, i + 1);
        assert(xs.subrange(0, i + 1).drop_last() =~= xs.subrange(0, i));
    }
}

proof fn lemma_masked_all(m: StoreModel, xs: Seq<MutationModel>, mask: Seq<bool>)
    requires
        mask.len() == xs.len(),
        forall|i: int| 0 <= i < xs.len() ==> #[trigger] mask[i],
    ensures
        apply_masked(m, xs, mask) == apply_mutations(m, xs),
    decreases xs.len(),
{
    if xs.len() > 0 {
        let d = mask.drop_last();
        assert forall|i: int| 0 <= i < xs.len() - 1 implies #[trigger] d[i] by {
            assert(d[i] == mask[i]);
        }
        lemma_masked_all(m, xs.drop_last(), d);
        assert(mask[mask.len() - 1]);
    }
}

/// Applies a transaction's mutations to the store in order. A mutation
/// that fails is skipped and the rest are applied; the first failure is
/// returned. All succeed when the store has room for all the puts.
pub fn apply_committed(storage: &mut HashStorage, muts: Vec<Mutation>) -> (r: Result<(), ExecError>)
    requires
        old(storage).wf(),
    ensures
        final(storage).wf(),
        best_effort(old(storage)@, mutations_model(muts@), final(storage)@, r is Ok),
        r is Ok ==> final(storage)@ == apply_mutations(old(storage)@, mutations_model(muts@)),
        r is Err ==> r->Err_0 == ExecError::OversizedRecord || r->Err_0 == ExecError::StoreFull,
        commit_fits(*old(storage), mutations_model(muts@)) ==> r is Ok,
{
    let mut first_error: Option<ExecError> = None;
    let mut i: usize = 0;
    let ghost xs = mutations_model(muts@);
    let ghost mut mask: Seq<bool> = Seq::empty();
    proof {
        assert(xs.subrange(0, 0) =~= Seq::<MutationModel>::empty());
    }
    while i < muts.len()
        invariant
            storage.wf(),
            xs == mutations_model(muts@),
            i <= muts@.len(),
            mask.len() == i,
            forall|j: int| 0 <= j < i && !xs[j].0 ==> #[trigger] mask[j],
            storage@ == apply_masked(old(storage)@, xs.subrange(0, i as int), mask),
            (first_error is None) == (forall|j: int| 0 <= j < i ==> #[trigger] mask[j]),
            first_error is Some ==> first_error->0 == ExecError::OversizedRecord || first_error->0
                == ExecError::StoreFull,
            storage.stored_bytes() <= old(storage).stored_bytes() + staged_put_bytes(xs.subrange(0, i as int)),
            storage.count() <= old(storage).count() + MAX_LEVEL * staged_puts(xs.subrange(0, i as int)),
            commit_fits(*old(storage), xs) ==> first_error is None,
        decreases muts@.len() - i,
    {
        let ghost pre = xs.subrange(0, i as int);
        assert(xs.subrange(0, i + 1).drop_last() =~= pre);
        proof {
            lemma_budget_prefix(xs, i + 1);
        }
        let res = match &muts[i] {
            Mutation::Put(PutCommand(k, v)) => storage.put_text(k.as_str(), v.as_str()),
            Mutation::Delete(DeleteCommand(k)) => {
                storage.delete_text(k.as_str());
                Ok(())
            },
        };
        let ghost prev_mask = mask;
        proof {
            mask = mask.push(res is Ok);
            assert(mask.drop_last() =~= prev_mask);
            assert forall|j: int| 0 <= j < i + 1 && !xs[j].0 implies #[trigger] mask[j] by {
                if j < i {
                    assert(mask[j] == prev_mask[j]);
                }
            }
        }
        match res {
            Ok(()) => {},
            Err(e) => {
                if first_error.is_none() {
                    first_error = Some(store_error(e));
                }
            },
        }
        proof {
            if first_error is None {
                assert forall|j: int| 0 <= j < i + 1 implies #[trigger] mask[j] by {
                    if j < i {
                        assert(mask[j] == prev_mask[j]);
                    }
                }
            } else {
                if !(res is Ok) {
                    assert(!mask[i as int]);
                } else {
                    let q = choose|q: int| 0 <= q < i && !#[trigger] prev_mask[q];
                    assert(!mask[q]);
                }
            }
        }
        i = i + 1;
    }
    assert(xs.subrange(0, i as int) =~= xs);
    proof {
        if first_error is None {
            lemma_masked_all(old(storage)@, xs, mask);
        }
        assert(best_effort(old(storage)@, xs, storage@, first_error is None));
    }
    match first_error {
        Some(e) => Err(e),
        None => Ok(()),
    }
}

/// Runs a client's command. With a transaction open, reads look at its
/// staged mutations first and writes are staged instead of applied;
/// `Commit` applies them in order and `Rollback` drops them.
pub fn execute_command(
    storage: &mut HashStorage,
    wal: &mut Wal,
    cmd: Command,
    transaction_id: Option<&str>,
) -> (r: Result<CommandOutput, ExecError>)
    requires
        old(storage).wf(),
        old(wal).wf(),
    ensures
        final(storage).wf(),
        final(wal).wf(),
        command_effect(*old(storage), old(wal)@, cmd@, tid_model(transaction_id), *final(storage), final(wal)@, r),
        cmd is Begin && old(wal).longest_id() < usize::MAX ==> r is Ok,
{
    let r = run_command(storage, wal, cmd, transaction_id);
    r
}

fn run_command(
    storage: &mut HashStorage,
    wal: &mut Wal,
    cmd: Command,
    transaction_id: Option<&str>,
) -> (r: Result<CommandOutput, ExecError>)
    requires
        old(storage).wf(),
        old(wal).wf(),
    ensures
        final(storage).wf(),
        final(wal).wf(),
        cmd is Begin && old(wal).longest_id() < usize::MAX ==> r is Ok,
        match cmd {
            Command::Get(GetCommand(k)) => command_effect(*old(storage), old(wal)@, CommandModel::Get(k@), tid_model(transaction_id), *final(storage), final(wal)@, r),
            Command::Put(PutCommand(k, v)) => command_effect(*old(storage), old(wal)@, CommandModel::Put(k@, v@), tid_model(transaction_id), *final(storage), final(wal)@, r),
            Command::Delete(DeleteCommand(k)) => command_effect(*old(storage), old(wal)@, CommandModel::Delete(k@), tid_model(transaction_id), *final(storage), final(wal)@, r),
            Command::Begin => command_effect(*old(storage), old(wal)@, CommandModel::Begin, tid_model(transaction_id), *final(storage), final(wal)@, r),
            Command::Commit => command_effect(*old(storage), old(wal)@, CommandModel::Commit, tid_model(transaction_id), *final(storage), final(wal)@, r),
            Command::Rollback => command_effect(*old(storage), old(wal)@, CommandModel::Rollback, tid_model(transaction_id), *final(storage), final(wal)@, r),
            Command::Exit => command_effect(*old(storage), old(wal)@, CommandModel::Exit, tid_model(transaction_id), *final(storage), final(wal)@, r),
        },
{
    match cmd {
        Command::Get(GetCommand(k)) => {
            if let Some(t) = transaction_id {
                let staged = wal.get(t, &GetCommand(k.clone()));
                match staged {
                    Some(Some(v)) => {
                        return Ok(CommandOutput::Found(v));
                    },
                    Some(None) => {
                        return Ok(CommandOutput::NotFound(k));
                    },
                    None => {},
                }
            }
            match storage.get_text(k.as_str()) {
                Ok(Some(v)) => Ok(CommandOutput::Found(v)),
                Ok(None) => Ok(CommandOutput::NotFound(k)),
                Err(e) => Err(store_error(e)),
            }
        },
        Command::Put(c) => match transaction_id {
            Some(t) => match wal.mutate(t, Mutation::Put(c)) {
                Ok(()) => Ok(CommandOutput::Put),
                Err(()) => Err(ExecError::UnknownTransaction),
            },
            None => match storage.put_text(c.0.as_str(), c.1.as_str()) {
                Ok(()) => Ok(CommandOutput::Put),
                Err(e) => Err(store_error(e)),
            },
        },
        Command::Delete(c) => match transaction_id {
            Some(t) => match wal.mutate(t, Mutation::Delete(c)) {
                Ok(()) => Ok(CommandOutput::Delete),
                Err(()) => Err(ExecError::UnknownTransaction),
            },
            None => {
                storage.delete_text(c.0.as_str());
                Ok(CommandOutput::Delete)
            },
        },
        Command::Begin => match wal.begin() {
            Some(id) => Ok(CommandOutput::Begin(id)),
            None => Err(ExecError::NoFreshTransactionId),
        },
        Command::Commit => match transaction_id {
            Some(t) => match wal.retrieve_mutations(t) {
                Some(muts) => match apply_committed(storage, muts) {
                    Ok(()) => Ok(CommandOutput::Commit),
                    Err(e) => Err(e),
                },
                None => Err(ExecError::UnknownTransaction),
            },
            None => Err(ExecError::UnknownTransaction),
        },
        Command::Rollback => match transaction_id {
            Some(t) => match wal.retrieve_mutations(t) {
                Some(_) => Ok(CommandOutput::Rollback),
                None => Err(ExecError::UnknownTransaction),
            },
            None => Err(ExecError::UnknownTransaction),
        },
        Command::Exit => Ok(CommandOutput::Exit),
    }
}

/// Reads a command line and runs it. A line that is not a command
/// changes nothing.
pub fn execute_user_input(
    storage: &mut HashStorage,
    wal: &mut Wal,
    input: &str,
    transaction_id: Option<&str>,
) -> (r: Result<CommandOutput, UserError>)
    requires
        old(storage).wf(),
        old(wal).wf(),
    ensures
        final(storage).wf(),
        final(wal).wf(),
        parse_spec(input@) is Err ==> r == Err::<CommandOutput, UserError>(UserError::Parse(parse_spec(input@)->Err_0))
            && *final(storage) == *old(storage) && final(wal)@ == old(wal)@,
        parse_spec(input@) is Ok ==> exists|x: Result<CommandOutput, ExecError>| {
            &&& #[trigger] command_effect(*old(storage), old(wal)@, parse_spec(input@)->Ok_0, tid_model(transaction_id), *final(storage), final(wal)@, x)
            &&& r == match x {
                Ok(o) => Ok::<CommandOutput, UserError>(o),
                Err(e) => Err::<CommandOutput, UserError>(UserError::Exec(e)),
            }
        },
{
    let cmd = match parse_command(input) {
        Ok(c) => c,
        Err(e) => {
            return Err(UserError::Parse(e));
        },
    };
    let ghost c = cmd@;
    let x = execute_command(storage, wal, cmd, transaction_id);
    let r = match x {
        Ok(o) => Ok(o),
        Err(e) => Err(UserError::Exec(e)),
    };
    assert(parse_spec(input@)->Ok_0 == c);
    assert(command_effect(*old(storage), old(wal)@, parse_spec(input@)->Ok_0, tid_model(transaction_id), *storage, wal@, x));
    assert(r == match x {
        Ok(o) => Ok::<CommandOutput, UserError>(o),
        Err(e) => Err::<CommandOutput, UserError>(UserError::Exec(e)),
    });
    r
}

} // verus!
