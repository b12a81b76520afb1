//! The key-value store owned by one shard worker, and the transition it
//! makes for each command: SET inserts or overwrites, GET answers a snapshot
//! of the value, DELETE removes and answers the prior value. The store is
//! modelled as a mathematical map from key bytes to value bytes, and the
//! per-key laws of a command history are proved over that model.

use vstd::prelude::*;
use crate::protocol::Command;
use crate::protocol::CommandModel;
use crate::protocol::Response;
use crate::protocol::ResponseModel;
use crate::protocol::command_req_id_of;
use crate::protocol::response_req_id_of;

verus! {

/// The mapping that a list of entries stands for, later entries winning.
pub open spec fn entries_map(s: Seq<(Vec<u8>, Vec<u8>)>) -> Map<Seq<u8>, Seq<u8>>
    decreases s.len(),
{
    if s.len() == 0 {
        Map::empty()
    } else {
        entries_map(s.drop_last()).insert(s.last().0@, s.last().1@)
    }
}

/// The value the newest entry with key `k` holds, if any.
spec fn lookup(s: Seq<(Vec<u8>, Vec<u8>)>, k: Seq<u8>) -> Option<Seq<u8>>
    decreases s.len(),
{
    if s.len() == 0 {
        None
    } else if s.last().0@ == k {
        Some(s.last().1@)
    } else {
        lookup(s.drop_last(), k)
    }
}

proof fn lemma_lookup_map(s: Seq<(Vec<u8>, Vec<u8>)>, k: Seq<u8>)
    ensures
        lookup(s, k) == if entries_map(s).contains_key(k) {
            Some(entries_map(s)[k])
        } else {
            None::<Seq<u8>>
        },
    decreases s.len(),
{
    if s.len() > 0 {
        lemma_lookup_map(s.drop_last(), k);
    }
}

fn bytes_eq(a: &Vec<u8>, b: &Vec<u8>) -> (r: bool)
    ensures
        r == (a@ == b@),
{
    if a.len() != b.len() {
        return false;
    }
    let mut i: usize = 0;
    while i < a.len()
        invariant
            i <= a.len(),
            a.len() == b.len(),
            forall|j: int| 0 <= j < i ==> a@[j] == b@[j],
        decreases a.len() - i,
    {
        if a[i] != b[i] {
            return false;
        }
        i = i + 1;
    }
    proof {
        assert(a@ =~= b@);
    }
    true
}

fn copy_bytes(src: &Vec<u8>) -> (out: Vec<u8>)
    ensures
        out@ == src@,
{
    let mut out: Vec<u8> = Vec::new();
    let mut i: usize = 0;
    while i < src.len()
        invariant
            i <= src.len(),
            out@ == src@.take(i as int),
        decreases src.len() - i,
    {
        out.push(src[i]);
        i = i + 1;
        proof {
            assert(out@ =~= src@.take(i as int));
        }
    }
    proof {
        assert(src@.take(src@.len() as int) =~= src@);
    }
    out
}

/// The store: byte-string keys mapped to byte-string values. A shard worker
/// owns one and applies the commands of its inbox in order.
pub struct Db {
    entries: Vec<(Vec<u8>, Vec<u8>)>,
}

impl View for Db {
    type V = Map<Seq<u8>, Seq<u8>>;

    closed spec fn view(&self) -> Map<Seq<u8>, Seq<u8>> {
        entries_map(self.entries@)
    }
}

impl Db {
    /// An empty store.
    pub fn new() -> (db: Db)
        ensures
            db@ == Map::<Seq<u8>, Seq<u8>>::empty(),
    {
        Db { entries: Vec::new() }
    }

    /// Looks a key up and returns a copy of its value: a snapshot that stays
    /// valid however the store is changed afterwards.
    pub fn get(&self, key: &Vec<u8>) -> (r: Option<Vec<u8>>)
        ensures
            self@.contains_key(key@) ==> (r matches Some(v) && v@ == self@[key@]),
            !self@.contains_key(key@) ==> r is None,
    {
        proof {
            lemma_lookup_map(self.entries@, key@);
            assert(self.entries@.take(self.entries@.len() as int) =~= self.entries@);
        }
        let n = self.entries.len();
        let mut i: usize = n;
        while i > 0
            invariant
                i <= n,
                n == self.entries.len(),
                lookup(self.entries@, key@) == lookup(self.entries@.take(i as int), key@),
            decreases i,
    {
            i = i - 1;
            proof {
                assert(self.entries@.take(i as int + 1).last() == self.entries@[i as int]);
                assert(self.entries@.take(i as int + 1).drop_last() =~= self.entries@.take(
                    i as int,
                ));
            }
            if bytes_eq(&self.entries[i].0, key) {
                proof {
                    lemma_lookup_map(self.entries@, key@);
                    assert(self.entries@[i as int].0@ == key@);
                    assert(lookup(self.entries@.take(i as int + 1), key@) == Some(
                        self.entries@[i as int].1@,
                    ));
                    assert(lookup(self.entries@, key@) == Some(self.entries@[i as int].1@));
                    assert(self@.contains_key(key@));
                    assert(self@[key@] == self.entries@[i as int].1@);
                }
                return Some(copy_bytes(&self.entries[i].1));
            }
        }
        None
    }

    /// Inserts a key or overwrites its value: afterwards the store maps the
    /// key to exactly this value and every other key is untouched.
    pub fn insert(&mut self, key: Vec<u8>, value: Vec<u8>)
        ensures
            final(self)@ == old(self)@.insert(key@, value@),
    {
        let ghost m0 = self@;
        self.remove(&key);
        let ghost kept = self.entries@;
        self.entries.push((key, value));
        proof {
            assert(self.entries@.drop_last() =~= kept);
            assert(m0.remove(key@).insert(key@, value@) =~= m0.insert(key@, value@));
        }
    }

    /// Removes a key, returning the value it had: afterwards the key is
    /// absent and every other key is untouched.
    pub fn remove(&mut self, key: &Vec<u8>) -> (r: Option<Vec<u8>>)
        ensures
            final(self)@ == old(self)@.remove(key@),
            old(self)@.contains_key(key@) ==> (r matches Some(v) && v@ == old(self)@[key@]),
            !old(self)@.contains_key(key@) ==> r is None,
    {
        let prior = self.get(key);
        let ghost s = self.entries@;
        let mut kept: Vec<(Vec<u8>, Vec<u8>)> = Vec::new();
        let n = self.entries.len();
        let mut i: usize = 0;
        proof {
            assert(entries_map(kept@) =~= entries_map(s.take(0)).remove(key@));
        }
        while i < n
            invariant
                i <= n,
                n == self.entries.len(),
                s == self.entries@,
                entries_map(kept@) == entries_map(s.take(i as int)).remove(key@),
            decreases n - i,
        {
            let ghost kept0 = kept@;
            let matches_key = bytes_eq(&self.entries[i].0, key);
            if !matches_key {
                let pair = (copy_bytes(&self.entries[i].0), copy_bytes(&self.entries[i].1));
                kept.push(pair);
            }
            proof {
                let e = s[i as int];
                assert(s.take(i as int + 1).drop_last() =~= s.take(i as int));
                assert(s.take(i as int + 1).last() == e);
                if matches_key {
                    assert(entries_map(s.take(i as int + 1)).remove(key@) =~= entries_map(
                        s.take(i as int),
                    ).remove(key@));
                } else {
                    assert(kept@.drop_last() =~= kept0);
                    assert(entries_map(s.take(i as int + 1)).remove(key@) =~= entries_map(
                        s.take(i as int),
                    ).remove(key@).insert(e.0@, e.1@));
                }
            }
            i = i + 1;
        }
        proof {
            assert(s.take(n as int) =~= s);
        }
        self.entries = kept;
        prior
    }
}

/// The map a command leaves behind: SET inserts, DELETE removes, GET changes
/// nothing.
pub open spec fn apply_map(m: Map<Seq<u8>, Seq<u8>>, c: CommandModel) -> Map<Seq<u8>, Seq<u8>> {
    match c {
        CommandModel::Get { .. } => m,
        CommandModel::Put { key, value, .. } => m.insert(key, value),
        CommandModel::Delete { key, .. } => m.remove(key),
    }
}

/// The reply a command earns against map `m`: SET answers OK with no value,
/// GET and DELETE answer OK with the (prior) value on a hit and NOT_FOUND on
/// a miss; every reply echoes the command's request id.
pub open spec fn apply_response(m: Map<Seq<u8>, Seq<u8>>, c: CommandModel) -> ResponseModel {
    match c {
        CommandModel::Get { req_id, key } => if m.contains_key(key) {
            ResponseModel::Okay { req_id, value: Some(m[key]) }
        } else {
            ResponseModel::NotFound { req_id }
        },
        CommandModel::Put { req_id, .. } => ResponseModel::Okay { req_id, value: None },
        CommandModel::Delete { req_id, key } => if m.contains_key(key) {
            ResponseModel::Okay { req_id, value: Some(m[key]) }
        } else {
            ResponseModel::NotFound { req_id }
        },
    }
}

impl Db {
    /// Performs one command against the store and produces its reply, as a
    /// shard worker does for each work item of its inbox, in order.
    pub fn apply(&mut self, command: Command) -> (r: Response)
        ensures
            final(self)@ == apply_map(old(self)@, command@),
            r@ == apply_response(old(self)@, command@),
    {
        match command {
            Command::Get { req_id, key } => {
                match self.get(&key) {
                    Some(value) => Response::Okay { req_id, value: Some(value) },
                    None => Response::NotFound { req_id },
                }
            },
            Command::Put { req_id, key, value } => {
                self.insert(key, value);
                Response::Okay { req_id, value: None }
            },
            Command::Delete { req_id, key } => {
                match self.remove(&key) {
                    Some(prior) => Response::Okay { req_id, value: Some(prior) },
                    None => Response::NotFound { req_id },
                }
            },
        }
    }
}

/// The map left after a whole sequence of commands, applied in order.
pub open spec fn run_commands(m: Map<Seq<u8>, Seq<u8>>, cmds: Seq<CommandModel>) -> Map<
    Seq<u8>,
    Seq<u8>,
>
    decreases cmds.len(),
{
    if cmds.len() == 0 {
        m
    } else {
        apply_map(run_commands(m, cmds.drop_last()), cmds.last())
    }
}

/// The replies earned by a whole sequence of commands, applied in order.
pub open spec fn run_responses(m: Map<Seq<u8>, Seq<u8>>, cmds: Seq<CommandModel>) -> Seq<
    ResponseModel,
>
    decreases cmds.len(),
{
    if cmds.len() == 0 {
        Seq::empty()
    } else {
        run_responses(m, cmds.drop_last()).push(
            apply_response(run_commands(m, cmds.drop_last()), cmds.last()),
        )
    }
}

/// Whether a command writes to key `k` (SET or DELETE of `k`).
pub open spec fn is_write_on(c: CommandModel, k: Seq<u8>) -> bool {
    match c {
        CommandModel::Get { .. } => false,
        CommandModel::Put { key, .. } => key == k,
        CommandModel::Delete { key, .. } => key == k,
    }
}

/// The newest SET or DELETE on key `k` in a command sequence, if any.
pub open spec fn last_write_on(cmds: Seq<CommandModel>, k: Seq<u8>) -> Option<CommandModel>
    decreases cmds.len(),
{
    if cmds.len() == 0 {
        None
    } else if is_write_on(cmds.last(), k) {
        Some(cmds.last())
    } else {
        last_write_on(cmds.drop_last(), k)
    }
}

/// Per-key history, last writer wins: after any run of commands, a key holds
/// exactly the value of the newest SET on it; it is absent when the newest
/// write on it was a DELETE; and it keeps its initial binding when nothing
/// wrote to it.
pub proof fn lemma_per_key_history(m: Map<Seq<u8>, Seq<u8>>, cmds: Seq<CommandModel>, k: Seq<u8>)
    ensures
        match last_write_on(cmds, k) {
            Some(c) => match c {
                CommandModel::Put { value, .. } => run_commands(m, cmds).contains_key(k)
                    && run_commands(m, cmds)[k] == value,
                CommandModel::Delete { .. } => !run_commands(m, cmds).contains_key(k),
                CommandModel::Get { .. } => true,
            },
            None => run_commands(m, cmds).contains_key(k) == m.contains_key(k) && (m.contains_key(
                k,
            ) ==> run_commands(m, cmds)[k] == m[k]),
        },
    decreases cmds.len(),
{
    if cmds.len() > 0 {
        lemma_per_key_history(m, cmds.drop_last(), k);
    }
}

/// A GET on key `k` after a run of commands whose newest write on `k` is a
/// SET of value `v` answers OK with exactly `v`.
pub proof fn lemma_get_after_set(
    m: Map<Seq<u8>, Seq<u8>>,
    cmds: Seq<CommandModel>,
    req_id: u32,
    k: Seq<u8>,
    v: Seq<u8>,
)
    requires
        last_write_on(cmds, k) matches Some(CommandModel::Put { value, .. }) && value == v,
    ensures
        apply_response(run_commands(m, cmds), CommandModel::Get { req_id, key: k })
            == (ResponseModel::Okay { req_id, value: Some(v) }),
{
    lemma_per_key_history(m, cmds, k);
}

/// A GET on a key that was never SET against an initial map that lacks it,
/// or whose newest write was a DELETE, answers NOT_FOUND.
pub proof fn lemma_get_miss(
    m: Map<Seq<u8>, Seq<u8>>,
    cmds: Seq<CommandModel>,
    req_id: u32,
    k: Seq<u8>,
)
    requires
        (last_write_on(cmds, k) matches Some(c) && c matches CommandModel::Delete { .. }) || (
        last_write_on(cmds, k) is None && !m.contains_key(k)),
    ensures
        apply_response(run_commands(m, cmds), CommandModel::Get { req_id, key: k })
            == (ResponseModel::NotFound { req_id }),
{
    lemma_per_key_history(m, cmds, k);
}

/// One reply per request, in submission order: a run of commands earns
/// exactly one reply for each command, at the same position, echoing that
/// command's request id. In particular the multiset of request ids answered
/// equals the multiset submitted.
pub proof fn lemma_responses_match_requests(m: Map<Seq<u8>, Seq<u8>>, cmds: Seq<CommandModel>)
    ensures
        run_responses(m, cmds).len() == cmds.len(),
        forall|i: int|
            0 <= i < cmds.len() ==> response_req_id_of(#[trigger] run_responses(m, cmds)[i])
                == command_req_id_of(cmds[i]),
    decreases cmds.len(),
{
    if cmds.len() > 0 {
        lemma_responses_match_requests(m, cmds.drop_last());
        assert(forall|i: int|
            0 <= i < cmds.len() - 1 ==> run_responses(m, cmds)[i] == run_responses(
                m,
                cmds.drop_last(),
            )[i]);
        assert(cmds.drop_last().len() == cmds.len() - 1);
        assert(forall|i: int|
            0 <= i < cmds.len() - 1 ==> cmds.drop_last()[i] == cmds[i]);
    }
}

/// The multiset of request ids answered by a run equals the multiset of
/// request ids submitted to it.
pub proof fn lemma_req_id_multiset(m: Map<Seq<u8>, Seq<u8>>, cmds: Seq<CommandModel>)
    ensures
        run_responses(m, cmds).map_values(
            |r: ResponseModel| response_req_id_of(r),
        ).to_multiset() == cmds.map_values(|c: CommandModel| command_req_id_of(c)).to_multiset(),
{
    lemma_responses_match_requests(m, cmds);
    assert(run_responses(m, cmds).map_values(|r: ResponseModel| response_req_id_of(r))
        =~= cmds.map_values(|c: CommandModel| command_req_id_of(c)));
}

} // verus!
