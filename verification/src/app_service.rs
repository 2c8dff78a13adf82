//! Operation ids for requests to the local app service: retry keys built
//! from the kind of operation, the process, the time and a per-process
//! counter, never from user content.
use crate::records::lemma_digits_decimal;
use crate::text::{decimal, push_decimal};
use vstd::prelude::*;
use vstd::string::StringExecFns;

verus! {

/// `desktop:<kind>:<process>:<milliseconds>:<counter>`.
pub open spec fn operation_id_text(kind: Seq<char>, process: u32, timestamp_ms: u64, counter: u64) -> Seq<char> {
    "desktop:"@ + kind + ":"@ + decimal(process as nat) + ":"@ + decimal(timestamp_ms as nat)
        + ":"@ + decimal(counter as nat)
}

/// The operation id for one request of this `kind`, given the process id,
/// the wall-clock time and the value the process's counter handed out.
pub fn operation_id(kind: &str, process: u32, timestamp_ms: u64, counter: u64) -> (id: String)
    ensures
        id@ == operation_id_text(kind@, process, timestamp_ms, counter),
{
    let mut id = String::from_str("desktop:");
    id.append(kind);
    id.append(":");
    push_decimal(&mut id, process as u128);
    id.append(":");
    push_decimal(&mut id, timestamp_ms as u128);
    id.append(":");
    push_decimal(&mut id, counter as u128);
    id
}

/// Requests that differ in the counter get different operation ids, so a
/// retry key never stands for two requests of one process at one instant.
pub proof fn lemma_operation_ids_distinct(
    kind: Seq<char>,
    process: u32,
    timestamp_ms: u64,
    counter1: u64,
    counter2: u64,
)
    requires
        counter1 != counter2,
    ensures
        operation_id_text(kind, process, timestamp_ms, counter1) != operation_id_text(
            kind,
            process,
            timestamp_ms,
            counter2,
        ),
{
    let prefix = "desktop:"@ + kind + ":"@ + decimal(process as nat) + ":"@ + decimal(
        timestamp_ms as nat,
    ) + ":"@;
    let a = operation_id_text(kind, process, timestamp_ms, counter1);
    let b = operation_id_text(kind, process, timestamp_ms, counter2);
    assert(a =~= prefix + decimal(counter1 as nat));
    assert(b =~= prefix + decimal(counter2 as nat));
    lemma_digits_decimal(counter1 as nat);
    lemma_digits_decimal(counter2 as nat);
    if a == b {
        assert(a.skip(prefix.len() as int) =~= decimal(counter1 as nat));
        assert(b.skip(prefix.len() as int) =~= decimal(counter2 as nat));
    }
}

} // verus!
