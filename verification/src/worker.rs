//! The indexing worker: it pops classified records off the shared work
//! queue, tokenizes plain text, asks its caller to pull archive entries,
//! and hands its private table over when it observes end of input.
//!
//! The queue is crossbeam's `SegQueue`, shared by the scanner and all the
//! workers. Its operations take `&self` and race with other threads, so
//! nothing useful can be promised about what a pop returns; every record a
//! worker does receive is processed under an exact contract, whatever the
//! interleaving.
use crate::scan::entry_admissible;
use crate::scan::is_entry_admissible;
use crate::table::FrequencyTable;
use crate::tokenize::{count_words_in_file_unicode, table_of_docs};
use vstd::prelude::*;

verus! {

/// One classified record traveling from the scanner to the workers.
pub enum ClassifiedFile {
    /// A plain-text file: its path and its raw bytes.
    PlainText { path: String, content: Vec<u8> },
    /// An archive container: its path and its raw bytes.
    Archive { path: String, content: Vec<u8> },
    /// The end-of-input sentinel, published exactly once by the scanner and
    /// re-published by each worker that observes it.
    EndOfInput,
}

#[verifier::external_type_specification]
#[verifier::external_body]
#[verifier::reject_recursive_types(T)]
pub struct ExSegQueue<T>(crossbeam::queue::SegQueue<T>);

/// Relies on crossbeam's SegQueue::pop. The queue is concurrent and `pop`
/// takes `&self`, so other threads may reshape the contents at any moment:
/// no relation between calls can be promised, only that whatever comes back
/// is one record that was pushed. The callers state exactly what they do
/// with every possible answer.
#[verifier::external_body]
fn queue_pop(queue: &crossbeam::queue::SegQueue<ClassifiedFile>) -> (r: Option<ClassifiedFile>) {
    queue.pop()
}

/// Relies on crossbeam's SegQueue::push: it appends the record and never
/// blocks. The contents are shared and concurrent, so nothing observable to
/// the verifier can be promised.
#[verifier::external_body]
fn queue_push(queue: &crossbeam::queue::SegQueue<ClassifiedFile>, record: ClassifiedFile) {
    queue.push(record)
}

/// What one worker step did, and what the caller must do next.
pub enum StepOutcome {
    /// The queue was momentarily empty: poll again.
    Idle,
    /// A plain-text record was tokenized and counted.
    Counted,
    /// An archive record was popped: the caller must pull its entries and
    /// offer each to `Worker::absorb_entry`, then resume stepping.
    ExtractArchive { path: String, content: Vec<u8> },
    /// The end-of-input sentinel was observed: it was pushed back so every
    /// other worker also observes it, and this worker's finished table is
    /// handed over.
    Finished { table: FrequencyTable },
}

/// One indexing worker: a private frequency table, modelled by the sequence
/// of documents the worker has tokenized so far.
pub struct Worker {
    table: FrequencyTable,
    docs: Ghost<Seq<Seq<u8>>>,
    done: Ghost<bool>,
}

impl Worker {
    /// The documents this worker has tokenized so far, in order. An archive
    /// entry counts as one document, exactly like a plain file.
    pub closed spec fn docs(&self) -> Seq<Seq<u8>> {
        self.docs@
    }

    /// Whether this worker has observed end of input and handed its table
    /// over. A terminated worker never runs again: no transition leads back.
    pub closed spec fn terminated(&self) -> bool {
        self.done@
    }

    /// The worker's table is exactly the sequential count over its
    /// documents.
    pub closed spec fn wf(&self) -> bool {
        self.table.wf() && self.table@ == table_of_docs(self.docs@)
    }

    /// A fresh worker: nothing counted yet.
    pub fn new() -> (w: Worker)
        ensures
            w.wf(),
            !w.terminated(),
            w.docs() == Seq::<Seq<u8>>::empty(),
    {
        Worker { table: FrequencyTable::new(), docs: Ghost(Seq::empty()), done: Ghost(false) }
    }

    /// Tokenize one document into the private table.
    pub fn absorb_document(&mut self, content: Vec<u8>)
        requires
            old(self).wf(),
            !old(self).terminated(),
        ensures
            final(self).wf(),
            !final(self).terminated(),
            final(self).docs() == old(self).docs().push(content@),
    {
        let ghost c0 = content@;
        count_words_in_file_unicode(content, &mut self.table);
        proof {
            self.docs@ = self.docs@.push(c0);
            assert(self.docs@.drop_last() =~= old(self).docs@);
        }
    }

    /// Offer one archive entry: it is tokenized exactly when its declared
    /// size is within the ceiling and its name carries the plain-text
    /// suffix; otherwise it is skipped and counts nothing. One entry never
    /// affects its siblings.
    pub fn absorb_entry(&mut self, name: &str, size: u64, content: Vec<u8>)
        requires
            old(self).wf(),
            !old(self).terminated(),
        ensures
            final(self).wf(),
            !final(self).terminated(),
            final(self).docs() == if entry_admissible(name@, size) {
                old(self).docs().push(content@)
            } else {
                old(self).docs()
            },
    {
        if is_entry_admissible(name, size) {
            self.absorb_document(content);
        }
    }

    /// Pop and process one record. Plain text is counted here; an archive
    /// is handed back for entry extraction; the sentinel is re-published,
    /// the finished table is returned, and the worker terminates.
    pub fn step(&mut self, queue: &crossbeam::queue::SegQueue<ClassifiedFile>) -> (r: StepOutcome)
        requires
            old(self).wf(),
            !old(self).terminated(),
        ensures
            final(self).wf(),
            match r {
                StepOutcome::Idle => !final(self).terminated() && final(self).docs() == old(
                    self).docs(),
                StepOutcome::Counted => !final(self).terminated() && exists|d: Seq<u8>|
                    final(self).docs() == old(self).docs().push(d),
                StepOutcome::ExtractArchive { .. } => !final(self).terminated() && final(
                    self).docs() == old(self).docs(),
                StepOutcome::Finished { table } => final(self).terminated() && table@
                    == table_of_docs(old(self).docs()),
            },
    {
        match queue_pop(queue) {
            None => StepOutcome::Idle,
            Some(ClassifiedFile::PlainText { path: _, content }) => {
                let ghost c0 = content@;
                self.absorb_document(content);
                proof {
                    assert(self.docs() == old(self).docs().push(c0));
                }
                StepOutcome::Counted
            },
            Some(ClassifiedFile::Archive { path, content }) => StepOutcome::ExtractArchive {
                path,
                content,
            },
            Some(ClassifiedFile::EndOfInput) => {
                queue_push(queue, ClassifiedFile::EndOfInput);
                let mut table = FrequencyTable::new();
                core::mem::swap(&mut table, &mut self.table);
                proof {
                    self.docs@ = Seq::empty();
                    self.done@ = true;
                }
                StepOutcome::Finished { table }
            },
        }
    }
}

} // verus!
