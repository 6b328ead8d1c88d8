//! The transaction log: per transaction, the mutations staged so far.
use crate::command::{mutations_model, staged_value, GetCommand, Mutation, MutationModel};
use vstd::hash_map::StringHashMap;
use crate::text::string_of_chars;
use vstd::prelude::*;
use vstd::string::StrSliceExecFns;

verus! {

/// Relies on `uuid::Uuid::new_v4` and its `Display`: a random version-4
/// identifier written as text. Nothing is promised of its value.
#[verifier::external_body]
fn new_transaction_id() -> (r: String) {
    uuid::Uuid::new_v4().to_string()
}

/// The staged mutations of each open transaction, by transaction ID.
pub struct Wal {
    data: StringHashMap<Vec<Mutation>>,
    longest: usize,
}

/// What the log holds: for each open transaction, its mutations in the
/// order they were staged.
pub type WalModel = Map<Seq<char>, Seq<MutationModel>>;

impl View for Wal {
    type V = WalModel;

    closed spec fn view(&self) -> WalModel {
        Map::new(
            |k: Seq<char>| self.data@.contains_key(k),
            |k: Seq<char>| mutations_model(self.data@[k]@),
        )
    }
}

/// A copy of a list of mutations.
fn copy_mutations(ms: &Vec<Mutation>) -> (r: Vec<Mutation>)
    ensures
        mutations_model(r@) == mutations_model(ms@),
{
    let mut out: Vec<Mutation> = Vec::new();
    let mut i: usize = 0;
    while i < ms.len()
        invariant
            i <= ms@.len(),
            mutations_model(out@) == mutations_model(ms@).subrange(0, i as int),
        decreases ms@.len() - i,
    {
        let ghost prev = out@;
        let m = ms[i].clone_mutation();
        assert(m@ == mutations_model(ms@)[i as int]);
        out.push(m);
        assert(mutations_model(out@) =~= mutations_model(prev).push(mutations_model(ms@)[i as int]));
        i = i + 1;
        assert(mutations_model(out@) =~= mutations_model(ms@).subrange(0, i as int));
    }
    assert(mutations_model(ms@).subrange(0, i as int) =~= mutations_model(ms@));
    out
}

impl Wal {
    /// No open transaction ID is longer than `longest_id()` characters.
    pub closed spec fn wf(&self) -> bool {
        forall|k: Seq<char>| #[trigger] self.data@.contains_key(k) ==> k.len() <= self.longest
    }

    /// A bound on the length of the open transaction IDs.
    pub closed spec fn longest_id(&self) -> nat {
        self.longest as nat
    }

    /// An empty log.
    pub fn new() -> (r: Wal)
        ensures
            r.wf(),
            r@ == WalModel::empty(),
    {
        let r = Wal { data: StringHashMap::new(), longest: 0 };
        assert(r@ =~= WalModel::empty());
        r
    }

    /// Opens transaction `id` with no mutations, where no transaction of
    /// that ID is open; otherwise changes nothing.
    pub fn begin_with(&mut self, id: String) -> (r: bool)
        requires
            old(self).wf(),
        ensures
            final(self).wf(),
            r == !old(self)@.contains_key(id@),
            r ==> final(self)@ == old(self)@.insert(id@, Seq::empty()),
            !r ==> final(self)@ == old(self)@,
            final(self).longest_id() >= old(self).longest_id(),
            final(self).longest_id() <= if id@.len() > old(self).longest_id() { id@.len() } else { old(self).longest_id() },
    {
        let ghost k = id@;
        if self.data.contains_key(id.as_str()) {
            return false;
        }
        let n = id.as_str().unicode_len();
        let empty: Vec<Mutation> = Vec::new();
        assert(mutations_model(empty@) =~= Seq::<MutationModel>::empty());
        self.data.insert(id, empty);
        if n > self.longest {
            self.longest = n;
        }
        assert(self@ =~= old(self)@.insert(k, Seq::empty()));
        true
    }

    /// Opens a transaction under a fresh ID and returns the ID: a random
    /// one, or, where that one is already open, one longer than every open
    /// ID. `None` only where an open ID may be `usize::MAX` characters long.
    pub fn begin(&mut self) -> (r: Option<String>)
        requires
            old(self).wf(),
        ensures
            final(self).wf(),
            match r {
                Some(id) => !old(self)@.contains_key(id@) && final(self)@ == old(self)@.insert(id@, Seq::empty()),
                None => final(self)@ == old(self)@ && old(self).longest_id() == usize::MAX,
            },
            old(self).longest_id() < usize::MAX ==> r is Some,
    {
        let id = new_transaction_id();
        if !self.data.contains_key(id.as_str()) {
            let out = id.clone();
            self.begin_with(id);
            return Some(out);
        }
        if self.longest == usize::MAX {
            return None;
        }
        let n = self.longest + 1;
        let mut cs: Vec<char> = Vec::new();
        let mut i: usize = 0;
        while i < n
            invariant
                i <= n,
                cs@.len() == i,
            decreases n - i,
        {
            cs.push('t');
            i = i + 1;
        }
        let fresh = string_of_chars(&cs);
        assert(!old(self)@.contains_key(fresh@));
        let out = fresh.clone();
        self.begin_with(fresh);
        Some(out)
    }

    /// Closes transaction `key` and hands back its mutations, oldest first;
    /// `None` where no such transaction is open.
    pub fn retrieve_mutations(&mut self, key: &str) -> (r: Option<Vec<Mutation>>)
        requires
            old(self).wf(),
        ensures
            final(self).wf(),
            final(self).longest_id() == old(self).longest_id(),
            match r {
                Some(ms) => old(self)@.contains_key(key@) && mutations_model(ms@) == old(self)@[key@],
                None => !old(self)@.contains_key(key@),
            },
            final(self)@ == old(self)@.remove(key@),
            !old(self)@.contains_key(key@) ==> final(self)@ == old(self)@,
    {
        let found = match self.data.get(key) {
            Some(ms) => Some(copy_mutations(ms)),
            None => None,
        };
        self.data.remove(key);
        assert(self@ =~= old(self)@.remove(key@));
        assert(!old(self)@.contains_key(key@) ==> old(self)@.remove(key@) =~= old(self)@);
        found
    }

    /// In transaction `key`, what the newest staged mutation of the key of
    /// `cmd` says; `None` where none names it or the transaction is not open.
    pub fn get(&self, key: &str, cmd: &GetCommand) -> (r: Option<Option<String>>)
        ensures
            match r {
                Some(Some(v)) => self@.contains_key(key@) && staged_value(self@[key@], cmd.0@) == Some(Some(v@)),
                Some(None) => self@.contains_key(key@) && staged_value(self@[key@], cmd.0@) == Some(None::<Seq<char>>),
                None => !self@.contains_key(key@) || staged_value(self@[key@], cmd.0@) is None,
            },
    {
        match self.data.get(key) {
            Some(ms) => {
                let mut i: usize = ms.len();
                let ghost mm = mutations_model(ms@);
                assert(self@.contains_key(key@) && self@[key@] == mm);
                assert(mm.subrange(0, i as int) =~= mm);
                while i > 0
                    invariant
                        mm == mutations_model(ms@),
                        self@.contains_key(key@) && self@[key@] == mm,
                        i <= ms@.len(),
                        staged_value(mm, cmd.0@) == staged_value(mm.subrange(0, i as int), cmd.0@),
                    decreases i,
                {
                    let ghost pre = mm.subrange(0, i as int);
                    assert(pre.drop_last() =~= mm.subrange(0, i - 1));
                    assert(pre.last() == ms@[i - 1]@);
                    match &ms[i - 1] {
                        Mutation::Put(c) => {
                            if crate::text::text_equal(c.0.as_str(), cmd.0.as_str()) {
                                return Some(Some(c.1.clone()));
                            }
                        },
                        Mutation::Delete(c) => {
                            if crate::text::text_equal(c.0.as_str(), cmd.0.as_str()) {
                                return Some(None);
                            }
                        },
                    }
                    i = i - 1;
                }
                None
            },
            None => None,
        }
    }

    /// Stages `cmd` at the end of transaction `key`; `Err` where no such
    /// transaction is open, and then nothing changes.
    pub fn mutate(&mut self, key: &str, cmd: Mutation) -> (r: Result<(), ()>)
        requires
            old(self).wf(),
        ensures
            final(self).wf(),
            final(self).longest_id() == old(self).longest_id(),
            r is Ok <==> old(self)@.contains_key(key@),
            r is Ok ==> final(self)@ == old(self)@.insert(key@, old(self)@[key@].push(cmd@)),
            r is Err ==> final(self)@ == old(self)@,
    {
        let ghost cv = cmd@;
        let mut ms = match self.data.get(key) {
            Some(ms) => copy_mutations(ms),
            None => {
                return Err(());
            },
        };
        let ghost before = mutations_model(ms@);
        ms.push(cmd);
        assert(mutations_model(ms@) =~= before.push(cv));
        self.data.insert(key.to_owned(), ms);
        assert(self@ =~= old(self)@.insert(key@, old(self)@[key@].push(cv)));
        Ok(())
    }
}

} // verus!
