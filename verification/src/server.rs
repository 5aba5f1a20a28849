//! The server-side dispatcher: one decoded request in, one response and the
//! matching store mutation out. The caller reads one frame per connection,
//! decodes it, serves it here, writes the response frame back, and appends
//! the returned log record (if any) to the active segment file.

use vstd::prelude::*;
use vstd::utf8::encode_utf8;

use crate::engine::KvStore;
use crate::protocol::{
    fits, lemma_encode_utf8_len, lemma_field_len, spec_serialize, Command, CommandV,
};

verus! {

/// Whether a set request's key and value fit one log record frame.
pub open spec fn set_request_fits(k: Seq<char>, v: Seq<char>) -> bool {
    encode_utf8(k).len() + encode_utf8(v).len() + 13 <= u32::MAX
}

/// Whether a remove request's key fits one log record frame.
pub open spec fn remove_request_fits(k: Seq<char>) -> bool {
    encode_utf8(k).len() + 9 <= u32::MAX
}

/// The response the server owes for each request against index `m`. A request
/// that is itself a response is answered with an `Error`, not a crash.
pub open spec fn spec_response(m: Map<Seq<char>, Seq<char>>, req: CommandV) -> CommandV {
    match req {
        CommandV::Get(k) => if m.contains_key(k) {
            CommandV::GetResponse(m[k])
        } else {
            CommandV::NotFound
        },
        CommandV::SetEntry(k, v) => if set_request_fits(k, v) {
            CommandV::SetResponse
        } else {
            CommandV::Error("entry too large"@)
        },
        CommandV::Remove(k) => if !remove_request_fits(k) {
            CommandV::Error("entry too large"@)
        } else if m.contains_key(k) {
            CommandV::RemoveResponse
        } else {
            CommandV::Error("Key not found"@)
        },
        _ => CommandV::Error("unsupported request"@),
    }
}

/// The index after the request has been served.
pub open spec fn spec_store_after(m: Map<Seq<char>, Seq<char>>, req: CommandV) -> Map<
    Seq<char>,
    Seq<char>,
> {
    match req {
        CommandV::SetEntry(k, v) => if set_request_fits(k, v) {
            m.insert(k, v)
        } else {
            m
        },
        CommandV::Remove(k) => if remove_request_fits(k) {
            m.remove(k)
        } else {
            m
        },
        _ => m,
    }
}

/// Whether serving the request appends a record to the log.
pub open spec fn spec_appends(m: Map<Seq<char>, Seq<char>>, req: CommandV) -> bool {
    match req {
        CommandV::SetEntry(k, v) => set_request_fits(k, v),
        CommandV::Remove(k) => remove_request_fits(k) && m.contains_key(k),
        _ => false,
    }
}

/// One served request: the response, its wire frame, and the log record the
/// caller must append to the active segment file (present exactly when the
/// store changed).
pub struct Reply {
    pub resp: Command,
    pub frame: Vec<u8>,
    pub record: Option<Vec<u8>>,
}

/// A response carrying an error message for the client.
fn error_reply(msg: &str) -> (r: Reply)
    requires
        9 + encode_utf8(msg@).len() <= u32::MAX,
    ensures
        r.resp@ == CommandV::Error(msg@),
        r.frame@ == spec_serialize(r.resp@),
        fits(r.resp@),
        r.record is None,
{
    let resp = Command::Error(msg.to_owned());
    proof {
        lemma_field_len(msg@);
    }
    let frame = resp.serialize();
    Reply { resp, frame, record: None }
}

/// Serves one decoded request: dispatches `Get`/`SetEntry`/`Remove` to the
/// store and answers with the matching response variant, or with `Error` on
/// a failed remove, an oversized entry, or a request that is no request. The
/// store is mutated exactly as its own operation says; the server never
/// panics on any decoded frame.
pub fn handle_request(store: &mut KvStore, req: Command) -> (r: Reply)
    requires
        old(store).wf(),
    ensures
        final(store).wf(),
        r.resp@ == spec_response(old(store)@, req@),
        r.frame@ == spec_serialize(r.resp@),
        fits(r.resp@),
        final(store)@ == spec_store_after(old(store)@, req@),
        final(store).sealed@ == old(store).sealed@,
        final(store).active.seq == old(store).active.seq,
        final(store).threshold == old(store).threshold,
        r.record is Some <==> spec_appends(old(store)@, req@),
        match r.record {
            Some(rec) => rec@ == spec_serialize(req@) && final(store).active.data@ == old(
                store,
            ).active.data@ + rec@,
            None => final(store).active.data@ == old(store).active.data@,
        },
{
    match req {
        Command::Get(k) => {
            match store.get(k) {
                Some(v) => {
                    proof {
                        lemma_field_len(v@);
                    }
                    let resp = Command::GetResponse(v);
                    let frame = resp.serialize();
                    Reply { resp, frame, record: None }
                },
                None => {
                    let resp = Command::NotFound;
                    let frame = resp.serialize();
                    Reply { resp, frame, record: None }
                },
            }
        },
        Command::SetEntry(k, v) => {
            let ek: usize = k.as_str().as_bytes().len();
            let ev: usize = v.as_str().as_bytes().len();
            let limit: u64 = (u32::MAX as u64) - 13;
            if (ek as u64) > limit || (ev as u64) > limit - (ek as u64) {
                proof {
                    reveal_strlit("entry too large");
                    lemma_encode_utf8_len("entry too large"@);
                }
                error_reply("entry too large")
            } else {
                let rec = store.set(k, v);
                let resp = Command::SetResponse;
                let frame = resp.serialize();
                Reply { resp, frame, record: Some(rec) }
            }
        },
        Command::Remove(k) => {
            let ek: usize = k.as_str().as_bytes().len();
            if (ek as u64) > (u32::MAX as u64) - 9 {
                proof {
                    reveal_strlit("entry too large");
                    lemma_encode_utf8_len("entry too large"@);
                }
                error_reply("entry too large")
            } else {
                match store.remove(k) {
                    Ok(rec) => {
                        let resp = Command::RemoveResponse;
                        let frame = resp.serialize();
                        Reply { resp, frame, record: Some(rec) }
                    },
                    Err(_) => {
                        proof {
                            reveal_strlit("Key not found");
                            lemma_encode_utf8_len("Key not found"@);
                        }
                        error_reply("Key not found")
                    },
                }
            }
        },
        _ => {
            proof {
                reveal_strlit("unsupported request");
                lemma_encode_utf8_len("unsupported request"@);
            }
            error_reply("unsupported request")
        },
    }
}

} // verus!
