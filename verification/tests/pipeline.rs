use crossbeam::queue::SegQueue;
use words_counting::report::{render_report, sorted_by_word_vec};
use words_counting::table::{merge_tables, FrequencyTable};
use words_counting::tokenize::count_corpus;
use words_counting::worker::{ClassifiedFile, StepOutcome, Worker};

fn count_of(t: &FrequencyTable, w: &str) -> u64 {
    t.count_of(&String::from(w))
}

/// Run one worker against the queue until it observes end of input, feeding
/// it the given in-memory archive entries whenever it pops an archive
/// record. An entry given as `None` stands for a failed extraction and is
/// skipped, as the pipeline skips it.
fn run_worker(
    queue: &SegQueue<ClassifiedFile>,
    archives: &[(&str, Vec<(&str, Option<Vec<u8>>)>)],
) -> FrequencyTable {
    let mut worker = Worker::new();
    loop {
        match worker.step(queue) {
            StepOutcome::Idle => continue,
            StepOutcome::Counted => continue,
            StepOutcome::ExtractArchive { path, content: _ } => {
                for (name, entries) in archives {
                    if *name == path {
                        for (entry_name, data) in entries {
                            match data {
                                Some(bytes) => {
                                    let size = bytes.len() as u64;
                                    worker.absorb_entry(entry_name, size, bytes.clone());
                                }
                                None => {
                                    // extraction failed: the entry counts
                                    // nothing, its siblings go on
                                }
                            }
                        }
                    }
                }
            }
            StepOutcome::Finished { table } => return table,
        }
    }
}

#[test]
fn scenario_archive_and_plain_file() {
    let queue = SegQueue::new();
    queue.push(ClassifiedFile::Archive {
        path: String::from("docs.zip"),
        content: vec![0u8; 4],
    });
    queue.push(ClassifiedFile::PlainText {
        path: String::from("b.txt"),
        content: b"bar".to_vec(),
    });
    queue.push(ClassifiedFile::EndOfInput);
    let archives = [("docs.zip", vec![("inner.txt", Some(b"foo foo bar".to_vec()))])];
    let t = run_worker(&queue, &archives);
    assert_eq!(count_of(&t, "foo"), 2);
    assert_eq!(count_of(&t, "bar"), 2);
    assert_eq!(t.num_words(), 2);
}

#[test]
fn corrupt_entry_skipped_siblings_counted() {
    let queue = SegQueue::new();
    queue.push(ClassifiedFile::Archive {
        path: String::from("a.tar"),
        content: vec![0u8; 4],
    });
    queue.push(ClassifiedFile::EndOfInput);
    let archives = [(
        "a.tar",
        vec![
            ("one.txt", Some(b"alpha".to_vec())),
            ("bad.txt", None),
            ("two.txt", Some(b"beta beta".to_vec())),
        ],
    )];
    let t = run_worker(&queue, &archives);
    assert_eq!(count_of(&t, "alpha"), 1);
    assert_eq!(count_of(&t, "beta"), 2);
    assert_eq!(t.num_words(), 2);
}

#[test]
fn oversized_and_foreign_entries_skipped() {
    let queue = SegQueue::new();
    queue.push(ClassifiedFile::Archive {
        path: String::from("a.zip"),
        content: vec![0u8; 4],
    });
    queue.push(ClassifiedFile::EndOfInput);
    let mut worker = Worker::new();
    let table;
    loop {
        match worker.step(&queue) {
            StepOutcome::ExtractArchive { .. } => {
                // declared size beyond the ceiling: skipped without extraction
                worker.absorb_entry("big.txt", 10_000_001, b"huge".to_vec());
                // name without the plain-text suffix: skipped
                worker.absorb_entry("img.png", 4, b"png".to_vec());
                // at the ceiling exactly: counted
                worker.absorb_entry("ok.txt", 10_000_000, b"kept".to_vec());
            }
            StepOutcome::Finished { table: t } => {
                table = t;
                break;
            }
            _ => continue,
        }
    }
    assert_eq!(count_of(&table, "kept"), 1);
    assert_eq!(count_of(&table, "huge"), 0);
    assert_eq!(count_of(&table, "png"), 0);
    assert_eq!(table.num_words(), 1);
}

#[test]
fn sentinel_reaches_every_worker() {
    let queue = SegQueue::new();
    queue.push(ClassifiedFile::PlainText {
        path: String::from("a.txt"),
        content: b"x y x".to_vec(),
    });
    queue.push(ClassifiedFile::EndOfInput);
    // Three workers drain the same queue one after the other: each observes
    // the sentinel once and re-publishes it for the next.
    let t1 = run_worker(&queue, &[]);
    let t2 = run_worker(&queue, &[]);
    let t3 = run_worker(&queue, &[]);
    let tables = vec![t1, t2, t3];
    let g = merge_tables(&tables);
    assert_eq!(count_of(&g, "x"), 2);
    assert_eq!(count_of(&g, "y"), 1);
    assert_eq!(g.num_words(), 2);
}

#[test]
fn partition_matches_sequential_count() {
    let d1 = b"the quick brown fox".to_vec();
    let d2 = b"jumps over the lazy dog".to_vec();
    let d3 = b"THE QUICK fox".to_vec();
    let d4 = b"dog dog dog".to_vec();

    // one worker takes d1 and d2, another takes d3 and d4
    let q1 = SegQueue::new();
    q1.push(ClassifiedFile::PlainText { path: String::from("1.txt"), content: d1.clone() });
    q1.push(ClassifiedFile::PlainText { path: String::from("2.txt"), content: d2.clone() });
    q1.push(ClassifiedFile::EndOfInput);
    let q2 = SegQueue::new();
    q2.push(ClassifiedFile::PlainText { path: String::from("3.txt"), content: d3.clone() });
    q2.push(ClassifiedFile::PlainText { path: String::from("4.txt"), content: d4.clone() });
    q2.push(ClassifiedFile::EndOfInput);
    let tables = vec![run_worker(&q1, &[]), run_worker(&q2, &[])];
    let merged = merge_tables(&tables);

    let sequential = count_corpus(vec![d1, d2, d3, d4]);

    let merged_report = render_report(&sorted_by_word_vec(&merged));
    let sequential_report = render_report(&sorted_by_word_vec(&sequential));
    assert_eq!(merged_report, sequential_report);
    assert_eq!(count_of(&merged, "the"), 3);
    assert_eq!(count_of(&merged, "dog"), 4);
}

#[test]
fn rerun_produces_identical_table() {
    let docs: Vec<Vec<u8>> = vec![b"a b c".to_vec(), b"B c".to_vec()];
    let t1 = count_corpus(docs.clone());
    let t2 = count_corpus(docs);
    let r1 = render_report(&sorted_by_word_vec(&t1));
    let r2 = render_report(&sorted_by_word_vec(&t2));
    assert_eq!(r1, r2);
}

#[test]
fn merge_sums_overlapping_words() {
    let mut a = FrequencyTable::new();
    a.bump(String::from("shared"));
    a.bump(String::from("only_a"));
    let mut b = FrequencyTable::new();
    b.bump(String::from("shared"));
    b.bump(String::from("shared"));
    b.bump(String::from("only_b"));
    let tables = vec![a, b];
    let g = merge_tables(&tables);
    assert_eq!(count_of(&g, "shared"), 3);
    assert_eq!(count_of(&g, "only_a"), 1);
    assert_eq!(count_of(&g, "only_b"), 1);
    assert_eq!(g.num_words(), 3);
}
