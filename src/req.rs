//! The requests and responses of the network frontend, and how a request is
//! served by the engine.
use vstd::prelude::*;

use crate::codec::Record;
use crate::command::Command;
use crate::engine::{apply_ops, DiskOp, KvError, KvStore};

verus! {

/// One request: a command for the engine.
pub struct Request {
    pub command: Command,
}

/// The answer to one request: a value or nothing, or an error message.
pub struct Response {
    pub result: Result<Option<String>, String>,
}

/// The response says `ok`.
pub open spec fn says_ok(r: &Response) -> bool {
    match r.result {
        Ok(Some(s)) => s@ == "ok"@,
        _ => false,
    }
}

/// The response is the error with message `t`.
pub open spec fn says_err(r: &Response, t: Seq<char>) -> bool {
    match r.result {
        Err(m) => m@ == t,
        _ => false,
    }
}

fn ok_text() -> (r: String)
    ensures
        r@ == "ok"@,
{
    String::from_str("ok")
}

/// Serves one request: runs its command on the engine and answers it. The
/// returned operations bring the data directory to the engine's new image.
pub fn handle(store: &mut KvStore, request: Request) -> (r: (Response, Vec<DiskOp>))
    requires
        old(store).wf(),
    ensures
        final(store).wf(),
        apply_ops(old(store).disk(), r.1@) == final(store).disk(),
        final(store).later_than(old(store)),
        match request.command@ {
            Record::Put { key, value } => {
                &&& says_ok(&r.0) <==> !(old(store).set_compacts(key) && old(store).active_id()
                    > u32::MAX - 2)
                &&& says_ok(&r.0) ==> final(store)@ == old(store)@.insert(key, value)
                &&& !says_ok(&r.0) ==> says_err(&r.0, KvError::LogFull.text()) && final(store)@
                    == old(store)@
            },
            Record::Get { key } => {
                &&& final(store)@ == old(store)@
                &&& match r.0.result {
                    Ok(Some(v)) => old(store)@.contains_key(key) && old(store)@[key] == v@,
                    Ok(None) => !old(store)@.contains_key(key),
                    Err(_) => false,
                }
            },
            Record::Remove { key } => {
                &&& says_err(&r.0, KvError::KeyNotFound.text()) <==> !old(store)@.contains_key(key)
                &&& says_ok(&r.0) <==> old(store)@.contains_key(key) && !(old(store).dead_after_remove(
                    key,
                ) > old(store).compaction_threshold() && old(store).active_id() > u32::MAX - 2)
                &&& says_ok(&r.0) ==> final(store)@ == old(store)@.remove(key)
                &&& says_ok(&r.0) || says_err(&r.0, KvError::KeyNotFound.text()) || says_err(
                    &r.0,
                    KvError::LogFull.text(),
                )
                &&& !says_ok(&r.0) ==> final(store)@ == old(store)@
            },
        },
{
    let ghost pre = *store;
    match request.command {
        Command::Put { key, value } => match store.set(key, value) {
            Ok(ops) => (Response { result: Ok(Some(ok_text())) }, ops),
            Err(e) => {
                proof {
                    KvStore::lemma_later_refl(pre, *store);
                    assert(apply_ops(pre.disk(), Seq::<DiskOp>::empty()) == pre.disk());
                }
                (Response { result: Err(e.message()) }, Vec::new())
            },
        },
        Command::Get { key } => {
            let result = match store.get(key) {
                Ok(v) => Ok(v),
                Err(e) => Err(e.message()),
            };
            proof {
                KvStore::lemma_later_refl(pre, *store);
                assert(apply_ops(pre.disk(), Seq::<DiskOp>::empty()) == pre.disk());
            }
            (Response { result }, Vec::new())
        },
        Command::Remove { key } => match store.remove(key) {
            Ok(ops) => (Response { result: Ok(Some(ok_text())) }, ops),
            Err(e) => {
                proof {
                    KvStore::lemma_later_refl(pre, *store);
                    assert(apply_ops(pre.disk(), Seq::<DiskOp>::empty()) == pre.disk());
                    reveal_strlit("Key not found");
                    reveal_strlit("Log full");
                    assert(KvError::LogFull.text().len() != KvError::KeyNotFound.text().len());
                }
                (Response { result: Err(e.message()) }, Vec::new())
            },
        },
    }
}

} // verus!
