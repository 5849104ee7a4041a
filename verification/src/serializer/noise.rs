//! The words that the scanner leaves out are in no table.

use vstd::prelude::*;
use crate::serializer::scanner::{
    decoded, extracted, initial, is_first_of, is_noise, run, scan, step, table_of, Record,
    ScanState,
};
use crate::table::{AuthorCounts, WordCounts};

verus! {

/// None of the words is noise.
pub open spec fn noise_free(words: WordCounts) -> bool {
    forall|w: Seq<u8>| #[trigger] words.contains_key(w) ==> !is_noise(w)
}

/// No author of the table has a word that is noise.
pub open spec fn table_noise_free(table: AuthorCounts) -> bool {
    forall|a: Seq<u8>| #[trigger] table.contains_key(a) ==> noise_free(table[a])
}

/// No record has a word that is noise.
pub open spec fn records_noise_free(records: Seq<Record>) -> bool {
    forall|i: int| 0 <= i < records.len() ==> noise_free((#[trigger] records[i]).words)
}

/// Neither the open record nor a closed one has a word that is noise.
pub open spec fn state_noise_free(state: ScanState) -> bool {
    &&& records_noise_free(state.records)
    &&& match state.current {
        Some(record) => noise_free(record.words),
        None => true,
    }
}

/// A step of the scanner brings no noise into the records.
pub proof fn lemma_step_noise_free(state: ScanState, byte: u8)
    requires
        state_noise_free(state),
    ensures
        state_noise_free(step(state, byte)),
{
    let next = step(state, byte);
    assert forall|i: int| 0 <= i < next.records.len() implies noise_free(
        (#[trigger] next.records[i]).words,
    ) by {
        if i < state.records.len() {
            assert(next.records[i] == state.records[i]);
        }
    }
}

/// A run of the scanner brings no noise into the records.
pub proof fn lemma_run_noise_free(state: ScanState, bytes: Seq<u8>)
    requires
        state_noise_free(state),
    ensures
        state_noise_free(run(state, bytes)),
    decreases bytes.len(),
{
    if bytes.len() > 0 {
        lemma_run_noise_free(state, bytes.drop_last());
        lemma_step_noise_free(run(state, bytes.drop_last()), bytes.last());
    }
}

/// Records without noise make a table without noise.
pub proof fn lemma_table_noise_free(records: Seq<Record>)
    requires
        records_noise_free(records),
    ensures
        table_noise_free(table_of(records)),
    decreases records.len(),
{
    if records.len() > 0 {
        let head = records.drop_last();
        assert forall|i: int| 0 <= i < head.len() implies noise_free((#[trigger] head[i]).words) by {
            assert(head[i] == records[i]);
        }
        lemma_table_noise_free(head);
        assert(noise_free(records[records.len() - 1].words));
    }
}

/// No table read from a stream of records holds a word that is noise.
pub proof fn lemma_scan_noise_free(data: Seq<u8>, author: Seq<u8>)
    ensures
        table_noise_free(decoded(data)),
        match extracted(data, author) {
            Some(words) => noise_free(words),
            None => true,
        },
{
    lemma_run_noise_free(initial(), data);
    lemma_table_noise_free(scan(data));
    if exists|k: int| is_first_of(scan(data), author, k) {
        let k = choose|k: int| is_first_of(scan(data), author, k);
        assert(noise_free(scan(data)[k].words));
    }
}

} // verus!
