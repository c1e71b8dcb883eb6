//! The `/btw` asides of a session: which of them a replay restores, in what
//! order, and when one is due.

use crate::text;
use crate::time::UtcInstant;
use std::collections::VecDeque;
use vstd::prelude::*;

verus! {

/// One record of the history of asides.
#[derive(Debug)]
pub struct BtwEntry {
    pub btw_session_id: String,
    pub parent_session_id: String,
    pub asked_at: UtcInstant,
    pub question: String,
    pub answer: String,
    pub model: String,
    pub success: bool,
    pub error: Option<String>,
    pub attempts: u32,
}

/// Whether an aside succeeded and has both a question and an answer.
pub open spec fn succeeded(entry: BtwEntry) -> bool {
    &&& entry.success
    &&& !text::blank(entry.question@)
    &&& !text::blank(entry.answer@)
}

/// The aside of a record, if the record could be read and the aside succeeded.
pub open spec fn successful_record() -> spec_fn(Option<BtwEntry>) -> Option<BtwEntry> {
    |record: Option<BtwEntry>|
        match record {
            Some(entry) => if succeeded(entry) {
                Some(entry)
            } else {
                None
            },
            None => None,
        }
}

/// The successful asides among records, in the order of the records.
pub open spec fn successful(records_read: Seq<Option<BtwEntry>>) -> Seq<BtwEntry> {
    records_read.filter_map(successful_record())
}

/// Whether no entry was asked later than one that follows it.
pub open spec fn in_order_of_asking(entries: Seq<BtwEntry>) -> bool {
    forall|i: int, j: int|
        0 <= i <= j < entries.len() ==> (#[trigger] entries[i]).asked_at.at_or_before(
            (#[trigger] entries[j]).asked_at,
        )
}

/// Whether an entry was asked at `instant`.
pub open spec fn was_asked_at(instant: UtcInstant) -> spec_fn(BtwEntry) -> bool {
    |entry: BtwEntry| entry.asked_at == instant
}

/// The entries that were asked at `instant`, in the order in which they stand.
pub open spec fn asked_at(entries: Seq<BtwEntry>, instant: UtcInstant) -> Seq<BtwEntry> {
    entries.filter(was_asked_at(instant))
}

/// Whether `sorted` holds the entries of `entries` in the order of asking, those
/// of one instant in the order in which they stood.
pub open spec fn stably_sorted(entries: Seq<BtwEntry>, sorted: Seq<BtwEntry>) -> bool {
    &&& in_order_of_asking(sorted)
    &&& forall|instant: UtcInstant| #[trigger]
        asked_at(sorted, instant) == asked_at(entries, instant)
}

/// Whether an aside succeeded and has both a question and an answer.
pub fn is_successful(entry: &BtwEntry) -> (answer: bool)
    ensures
        answer == succeeded(*entry),
{
    entry.success && !text::is_blank(entry.question.as_str()) && !text::is_blank(entry.answer.as_str())
}

proof fn lemma_inserted_in_order(sorted: Seq<BtwEntry>, at: int, entry: BtwEntry)
    requires
        in_order_of_asking(sorted),
        0 <= at <= sorted.len(),
        forall|i: int|
            0 <= i < at ==> (#[trigger] sorted[i]).asked_at.at_or_before(entry.asked_at),
        forall|i: int|
            at <= i < sorted.len() ==> !(#[trigger] sorted[i]).asked_at.at_or_before(
                entry.asked_at,
            ),
    ensures
        stably_sorted(sorted.push(entry), sorted.insert(at, entry)),
{
    let inserted = sorted.insert(at, entry);
    assert forall|i: int, j: int| 0 <= i <= j < inserted.len() implies (
    #[trigger] inserted[i]).asked_at.at_or_before((#[trigger] inserted[j]).asked_at) by {
        let old_i = if i <= at { i } else { i - 1 };
        let old_j = if j <= at { j } else { j - 1 };
        if i != at && j != at {
            assert(sorted[old_i].asked_at.at_or_before(sorted[old_j].asked_at));
        } else if i != at {
            assert(sorted[old_i].asked_at.at_or_before(entry.asked_at));
        } else if j != at {
            assert(!sorted[old_j].asked_at.at_or_before(entry.asked_at));
        }
    }
    assert forall|instant: UtcInstant| #[trigger]
        asked_at(inserted, instant) == asked_at(sorted.push(entry), instant) by {
        let pred = was_asked_at(instant);
        let front = sorted.take(at);
        let back = sorted.skip(at);
        assert(sorted =~= front + back);
        assert(inserted =~= front + seq![entry] + back);
        assert(sorted.push(entry) =~= front + back + seq![entry]);
        Seq::filter_distributes_over_add(front + seq![entry], back, pred);
        Seq::filter_distributes_over_add(front, seq![entry], pred);
        Seq::filter_distributes_over_add(front + back, seq![entry], pred);
        Seq::filter_distributes_over_add(front, back, pred);
        if instant == entry.asked_at {
            assert forall|i: int| 0 <= i < back.len() implies !pred(#[trigger] back[i]) by {
                assert(!sorted[at + i].asked_at.at_or_before(entry.asked_at));
            }
            back.lemma_all_neg_filter_empty(pred);
            assert(back.filter(pred) =~= seq![]);
        } else {
            seq![entry].lemma_all_neg_filter_empty(pred);
            assert(seq![entry].filter(pred) =~= seq![]);
        }
        assert(inserted.filter(pred) =~= sorted.push(entry).filter(pred));
    }
}

/// The entries in the order of asking, those of one instant in the order in
/// which they stood.
pub fn sort_by_asked_at(entries: Vec<BtwEntry>) -> (sorted: Vec<BtwEntry>)
    ensures
        stably_sorted(entries@, sorted@),
{
    let ghost all = entries@;
    let mut sorted: Vec<BtwEntry> = Vec::new();
    assert(all.take(0) =~= sorted@);
    for entry in taken: entries
        invariant
            taken.seq() == all,
            stably_sorted(all.take(taken.index()), sorted@),
    {
        let ghost before = sorted@;
        let ghost index = taken.index();
        let mut at: usize = sorted.len();
        while at > 0 && sorted[at - 1].asked_at.is_after(&entry.asked_at)
            invariant
                at <= sorted.len(),
                sorted@ == before,
                forall|i: int|
                    at <= i < before.len() ==> !(#[trigger] before[i]).asked_at.at_or_before(
                        entry.asked_at,
                    ),
            decreases at,
        {
            at = at - 1;
        }
        proof {
            assert forall|i: int| 0 <= i < at implies (
            #[trigger] before[i]).asked_at.at_or_before(entry.asked_at) by {
                assert(before[i].asked_at.at_or_before(before[at - 1].asked_at));
            }
            lemma_inserted_in_order(before, at as int, entry);
            assert(all.take(index + 1) =~= all.take(index).push(entry));
            assert forall|instant: UtcInstant| #[trigger]
                asked_at(before.insert(at as int, entry), instant) == asked_at(
                    all.take(index + 1),
                    instant,
                ) by {
                let pred = was_asked_at(instant);
                assert(asked_at(before, instant) == asked_at(all.take(index), instant));
                before.lemma_filter_push(entry, pred);
                all.take(index).lemma_filter_push(entry, pred);
            }
        }
        sorted.insert(at, entry);
    }
    assert(all.take(all.len() as int) =~= all);
    sorted
}

/// The successful asides among records, in the order of asking.
pub fn successful_entries(records_read: Vec<Option<BtwEntry>>) -> (entries: Vec<BtwEntry>)
    ensures
        stably_sorted(successful(records_read@), entries@),
{
    let ghost all = records_read@;
    let mut entries: Vec<BtwEntry> = Vec::new();
    proof {
        reveal(Seq::filter_map);
        assert(all.take(0) =~= seq![]);
    }
    for record in taken: records_read
        invariant
            taken.seq() == all,
            entries@ == successful(all.take(taken.index())),
    {
        proof {
            reveal(Seq::filter_map);
            let index = taken.index();
            assert(all.take(index + 1).drop_last() =~= all.take(index));
        }
        if let Some(entry) = record {
            if is_successful(&entry) {
                entries.push(entry);
            }
        }
    }
    assert(all.take(all.len() as int) =~= all);
    sort_by_asked_at(entries)
}

/// Whether `outcome` is what `parse` may make of the text `record`.
pub open spec fn read_as<P: Fn(&str) -> Option<BtwEntry>>(
    parse: P,
    record: Seq<char>,
    outcome: Option<BtwEntry>,
) -> bool {
    exists|slice: &str| slice@ == record && #[trigger] call_ensures(parse, (slice,), outcome)
}

/// Whether `outcomes` are what `parse` may make of `texts`, one by one.
pub open spec fn all_read_as<P: Fn(&str) -> Option<BtwEntry>>(
    parse: P,
    texts: Seq<Seq<char>>,
    outcomes: Seq<Option<BtwEntry>>,
) -> bool {
    &&& outcomes.len() == texts.len()
    &&& forall|i: int|
        0 <= i < texts.len() ==> read_as(parse, #[trigger] texts[i], #[trigger] outcomes[i])
}

/// Whether `entries` are the successful asides that `parse` finds in the text
/// of a history, in the order of asking.
pub open spec fn loaded_from<P: Fn(&str) -> Option<BtwEntry>>(
    parse: P,
    history: Seq<char>,
    entries: Seq<BtwEntry>,
) -> bool {
    exists|outcomes: Seq<Option<BtwEntry>>|
        #![trigger all_read_as(parse, text::records(history), outcomes)]
        all_read_as(parse, text::records(history), outcomes) && stably_sorted(
            successful(outcomes),
            entries,
        )
}

/// The successful asides in the text of a history, in the order of asking.
/// `parse` reads one record; it is given each line that is not blank, without
/// the white space around it, and a line that it cannot read is passed over.
pub fn load_successful_btw_from_str<P: Fn(&str) -> Option<BtwEntry>>(
    contents: &str,
    parse: P,
) -> (entries: Vec<BtwEntry>)
    requires
        forall|line: &str| call_requires(parse, (line,)),
    ensures
        loaded_from(parse, contents@, entries@),
{
    let lines: Vec<&str> = text::non_blank_lines(contents);
    let ghost records = text::records(contents@);
    let mut outcomes: Vec<Option<BtwEntry>> = Vec::new();
    let mut i: usize = 0;
    assert(records.len() == lines.len()) by {
        assert(text::contents(lines@).len() == lines.len());
    }
    while i < lines.len()
        invariant
            i <= lines.len(),
            forall|line: &str| call_requires(parse, (line,)),
            records == text::records(contents@),
            text::contents(lines@) == text::non_blank_text_lines(contents@),
            records.len() == lines.len(),
            outcomes.len() == i,
            forall|k: int|
                0 <= k < i ==> read_as(parse, #[trigger] records[k], #[trigger] outcomes@[k]),
        decreases lines.len() - i,
    {
        let record: &str = lines[i].trim();
        assert(text::contents(lines@)[i as int] == lines@[i as int]@);
        assert(record@ == records[i as int]);
        let outcome = parse(record);
        outcomes.push(outcome);
        i = i + 1;
    }
    assert(all_read_as(parse, records, outcomes@));
    successful_entries(outcomes)
}

/// Whether `second` falls in one of the closed ranges `windows`.
pub open spec fn in_a_window(second: int, windows: Seq<(i64, i64)>) -> bool {
    exists|k: int|
        0 <= k < windows.len() && (#[trigger] windows[k]).0 <= second <= windows[k].1
}

/// Whether an entry was asked outside all of `windows`.
pub open spec fn asked_outside(windows: Seq<(i64, i64)>) -> spec_fn(BtwEntry) -> bool {
    |entry: BtwEntry| !in_a_window(entry.asked_at.second() as int, windows)
}

/// The entries that were asked outside all of `windows`, in the order in which
/// they stand.
pub open spec fn surviving(entries: Seq<BtwEntry>, windows: Seq<(i64, i64)>) -> Seq<BtwEntry> {
    entries.filter(asked_outside(windows))
}

/// Whether an aside asked in the second `asked_at` was asked while something
/// ran that a rewind later discarded.
pub fn is_discarded(asked_at: i64, windows: &Vec<(i64, i64)>) -> (answer: bool)
    ensures
        answer == in_a_window(asked_at as int, windows@),
{
    let mut k: usize = 0;
    while k < windows.len()
        invariant
            k <= windows.len(),
            forall|j: int|
                0 <= j < k ==> !((#[trigger] windows@[j]).0 <= asked_at <= windows@[j].1),
        decreases windows.len() - k,
    {
        let (start, end) = windows[k];
        if asked_at >= start && asked_at <= end {
            return true;
        }
        k = k + 1;
    }
    false
}

/// The entries that were asked outside all of `windows`, in the order in which
/// they stand.
pub fn entries_outside(entries: Vec<BtwEntry>, windows: &Vec<(i64, i64)>) -> (kept: Vec<BtwEntry>)
    ensures
        kept@ == surviving(entries@, windows@),
{
    let ghost all = entries@;
    let ghost pred = asked_outside(windows@);
    let mut kept: Vec<BtwEntry> = Vec::new();
    assert(all.take(0) =~= seq![]);
    for entry in taken: entries
        invariant
            taken.seq() == all,
            pred == asked_outside(windows@),
            kept@ == all.take(taken.index()).filter(pred),
    {
        proof {
            let index = taken.index();
            assert(all.take(index + 1) =~= all.take(index).push(entry));
            all.take(index).lemma_filter_push(entry, pred);
        }
        if !is_discarded(entry.asked_at.timestamp(), windows) {
            kept.push(entry);
        }
    }
    assert(all.take(all.len() as int) =~= all);
    kept
}

/// Whether `windows` is what `windows_of` may make of the lines of `log` that
/// are not blank.
pub open spec fn windows_found<W: Fn(&Vec<&str>) -> Vec<(i64, i64)>>(
    windows_of: W,
    log: Seq<char>,
    windows: Seq<(i64, i64)>,
) -> bool {
    exists|lines: Vec<&str>, found: Vec<(i64, i64)>|
        text::contents(lines@) == text::non_blank_text_lines(log) && found@ == windows
            && #[trigger] call_ensures(windows_of, (&lines,), found)
}

/// The entries that a replay of the log `raw` restores: those not asked while
/// something ran that a rewind later discarded. `windows_of` finds the ranges of
/// seconds that rewinds discarded; it is given the lines of the log that are not
/// blank.
pub fn filter_btw_surviving_rewinds<W: Fn(&Vec<&str>) -> Vec<(i64, i64)>>(
    entries: Vec<BtwEntry>,
    raw: &str,
    windows_of: W,
) -> (kept: Vec<BtwEntry>)
    requires
        forall|lines: &Vec<&str>| call_requires(windows_of, (lines,)),
    ensures
        exists|windows: Seq<(i64, i64)>| #[trigger]
            windows_found(windows_of, raw@, windows) && kept@ == surviving(entries@, windows),
{
    let lines: Vec<&str> = text::non_blank_lines(raw);
    let windows = windows_of(&lines);
    assert(windows_found(windows_of, raw@, windows@));
    entries_outside(entries, &windows)
}

/// The asides that a replay of the log `raw` restores, in the order of asking:
/// the successful ones in the text of the history that rewinds left.
pub fn load_btw_entries_for_replay<
    P: Fn(&str) -> Option<BtwEntry>,
    W: Fn(&Vec<&str>) -> Vec<(i64, i64)>,
>(history: &str, raw: &str, parse: P, windows_of: W) -> (entries: Vec<BtwEntry>)
    requires
        forall|line: &str| call_requires(parse, (line,)),
        forall|lines: &Vec<&str>| call_requires(windows_of, (lines,)),
    ensures
        restored_from(parse, windows_of, history@, raw@, entries@),
{
    let loaded = load_successful_btw_from_str(history, parse);
    filter_btw_surviving_rewinds(loaded, raw, windows_of)
}

/// Whether `entries` are the successful asides of a history that the rewinds in
/// the log `raw` left, in the order of asking.
pub open spec fn restored_from<
    P: Fn(&str) -> Option<BtwEntry>,
    W: Fn(&Vec<&str>) -> Vec<(i64, i64)>,
>(
    parse: P,
    windows_of: W,
    history: Seq<char>,
    raw: Seq<char>,
    entries: Seq<BtwEntry>,
) -> bool {
    exists|loaded: Seq<BtwEntry>, windows: Seq<(i64, i64)>| #[trigger]
        loaded_from(parse, history, loaded) && #[trigger] windows_found(windows_of, raw, windows)
            && entries == surviving(loaded, windows)
}

/// Whether an aside asked at `asked_at` is due before a recorded line with the
/// timestamp `line_ts`, or at the end of a replay, where `flush_rest` holds.
pub open spec fn due(asked_at: UtcInstant, line_ts: Option<i64>, flush_rest: bool) -> bool {
    flush_rest || (line_ts matches Some(ts) && asked_at.second() <= ts)
}

/// Whether an aside asked at `asked_at` should be injected before this recorded
/// line, or at the end of a replay. It goes by the time of asking, not by the
/// time of dismissal, so that the order is that of the live session.
pub fn btw_due_for_line(asked_at: UtcInstant, line_ts: Option<i64>, flush_rest: bool) -> (answer:
    bool)
    ensures
        answer == due(asked_at, line_ts, flush_rest),
{
    flush_rest || match line_ts {
        Some(ts) => asked_at.timestamp() <= ts,
        None => false,
    }
}

/// The asides that a replay has still to inject, the next one first.
#[derive(Debug)]
pub struct BtwQueue {
    pending: VecDeque<BtwEntry>,
}

impl View for BtwQueue {
    type V = Seq<BtwEntry>;

    closed spec fn view(&self) -> Seq<BtwEntry> {
        self.pending@
    }
}

impl BtwQueue {
    /// A queue of `entries`, in their order.
    pub fn new(entries: Vec<BtwEntry>) -> (queue: BtwQueue)
        ensures
            queue@ == entries@,
    {
        let ghost all = entries@;
        let mut pending: VecDeque<BtwEntry> = VecDeque::new();
        assert(all.take(0) =~= seq![]);
        for entry in taken: entries
            invariant
                taken.seq() == all,
                pending@ == all.take(taken.index()),
        {
            assert(all.take(taken.index() + 1) =~= all.take(taken.index()).push(entry));
            pending.push_back(entry);
        }
        assert(all.take(all.len() as int) =~= all);
        BtwQueue { pending }
    }

    /// Takes the next aside off the queue, if it is due.
    pub fn next_due(&mut self, line_ts: Option<i64>, flush_rest: bool) -> (next: Option<BtwEntry>)
        ensures
            next is Some <==> old(self)@.len() > 0 && due(
                old(self)@[0].asked_at,
                line_ts,
                flush_rest,
            ),
            next matches Some(entry) ==> entry == old(self)@[0] && final(self)@
                == old(self)@.drop_first(),
            next is None ==> final(self)@ == old(self)@,
    {
        if self.pending.len() == 0 {
            return None;
        }
        if !btw_due_for_line(self.pending[0].asked_at, line_ts, flush_rest) {
            return None;
        }
        self.pending.pop_front()
    }

    /// Takes the asides off the queue that are due, up to the first that is not.
    pub fn emit_btw_due(&mut self, line_ts: Option<i64>, flush_rest: bool) -> (emitted: Vec<
        BtwEntry,
    >)
        ensures
            old(self)@ == emitted@ + final(self)@,
            forall|i: int|
                0 <= i < emitted.len() ==> due(
                    (#[trigger] emitted@[i]).asked_at,
                    line_ts,
                    flush_rest,
                ),
            final(self)@.len() > 0 ==> !due(final(self)@[0].asked_at, line_ts, flush_rest),
            flush_rest ==> emitted@ == old(self)@ && final(self)@.len() == 0,
    {
        let ghost all = self@;
        let mut emitted: Vec<BtwEntry> = Vec::new();
        loop
            invariant
                all == emitted@ + self@,
                forall|i: int|
                    0 <= i < emitted.len() ==> due(
                        (#[trigger] emitted@[i]).asked_at,
                        line_ts,
                        flush_rest,
                    ),
            ensures
                self@.len() > 0 ==> !due(self@[0].asked_at, line_ts, flush_rest),
            decreases self@.len(),
        {
            let ghost before = self@;
            match self.next_due(line_ts, flush_rest) {
                Some(entry) => {
                    let ghost emitted_before = emitted@;
                    emitted.push(entry);
                    assert(emitted_before + before =~= emitted@ + self@);
                },
                None => {
                    break;
                },
            }
        }
        assert(self@.len() == 0 ==> emitted@ + self@ =~= emitted@);
        emitted
    }
}

proof fn lemma_filter_of_last<A>(s: Seq<A>, pred: spec_fn(A) -> bool)
    requires
        s.len() > 0,
    ensures
        pred(s.last()) ==> s.filter(pred) == s.drop_last().filter(pred).push(s.last()),
        !pred(s.last()) ==> s.filter(pred) == s.drop_last().filter(pred),
{
    assert(s =~= s.drop_last().push(s.last()));
    s.drop_last().lemma_filter_push(s.last(), pred);
}

proof fn lemma_time_of_last_occurs(a: Seq<BtwEntry>, b: Seq<BtwEntry>)
    requires
        a.len() > 0,
        in_order_of_asking(b),
        asked_at(a, a.last().asked_at) == asked_at(b, a.last().asked_at),
    ensures
        b.len() > 0,
        a.last().asked_at.at_or_before(b.last().asked_at),
{
    let pred = was_asked_at(a.last().asked_at);
    lemma_filter_of_last(a, pred);
    assert(b.filter(pred).contains(a.last())) by {
        assert(a.filter(pred).last() == a.last());
    }
    b.lemma_filter_contains_rev(pred, a.last());
    let i = choose|i: int| 0 <= i < b.len() && b[i] == a.last();
    assert(b[i].asked_at.at_or_before(b[b.len() - 1].asked_at));
}

/// Entries have one order of asking: whatever sorts them, those of one instant
/// in the order in which they stood, comes to the same result.
pub proof fn order_of_asking_is_unique(
    entries: Seq<BtwEntry>,
    a: Seq<BtwEntry>,
    b: Seq<BtwEntry>,
)
    requires
        stably_sorted(entries, a),
        stably_sorted(entries, b),
    ensures
        a == b,
{
    assert forall|instant: UtcInstant| #[trigger] asked_at(a, instant) == asked_at(b, instant) by {
        assert(asked_at(a, instant) == asked_at(entries, instant));
        assert(asked_at(b, instant) == asked_at(entries, instant));
    }
    lemma_same_times_same_order(a, b);
}

proof fn lemma_same_times_same_order(a: Seq<BtwEntry>, b: Seq<BtwEntry>)
    requires
        in_order_of_asking(a),
        in_order_of_asking(b),
        forall|instant: UtcInstant| #[trigger] asked_at(a, instant) == asked_at(b, instant),
    ensures
        a == b,
    decreases a.len(),
{
    if a.len() == 0 {
        if b.len() > 0 {
            assert(asked_at(b, b.last().asked_at) == asked_at(a, b.last().asked_at));
            lemma_time_of_last_occurs(b, a);
        }
        assert(a =~= b);
    } else {
        lemma_time_of_last_occurs(a, b);
        assert(asked_at(b, b.last().asked_at) == asked_at(a, b.last().asked_at));
        lemma_time_of_last_occurs(b, a);
        let last = a.last().asked_at;
        crate::time::instants_are_totally_ordered(last, b.last().asked_at, last);
        assert(asked_at(a, last) == asked_at(b, last));
        lemma_filter_of_last(a, was_asked_at(last));
        lemma_filter_of_last(b, was_asked_at(last));
        assert(asked_at(a, last).last() == a.last());
        assert(asked_at(b, last).last() == b.last());
        assert forall|instant: UtcInstant| #[trigger]
            asked_at(a.drop_last(), instant) == asked_at(b.drop_last(), instant) by {
            assert(asked_at(a, instant) == asked_at(b, instant));
            lemma_filter_of_last(a, was_asked_at(instant));
            lemma_filter_of_last(b, was_asked_at(instant));
            if instant == last {
                assert(asked_at(a, instant).drop_last() =~= asked_at(a.drop_last(), instant));
                assert(asked_at(b, instant).drop_last() =~= asked_at(b.drop_last(), instant));
            }
        }
        lemma_same_times_same_order(a.drop_last(), b.drop_last());
        assert(a =~= a.drop_last().push(a.last()));
        assert(b =~= b.drop_last().push(b.last()));
    }
}

proof fn lemma_order_of_asking_exists(entries: Seq<BtwEntry>) -> (sorted: Seq<BtwEntry>)
    ensures
        stably_sorted(entries, sorted),
        sorted.to_multiset() == entries.to_multiset(),
    decreases entries.len(),
{
    if entries.len() == 0 {
        entries
    } else {
        let front = entries.drop_last();
        let entry = entries.last();
        let sorted = lemma_order_of_asking_exists(front);
        let at = lemma_place_exists(sorted, entry, sorted.len() as int);
        lemma_inserted_in_order(sorted, at, entry);
        let inserted = sorted.insert(at, entry);
        assert(entries =~= front.push(entry));
        assert forall|instant: UtcInstant| #[trigger]
            asked_at(inserted, instant) == asked_at(entries, instant) by {
            assert(asked_at(inserted, instant) == asked_at(sorted.push(entry), instant));
            assert(asked_at(sorted, instant) == asked_at(front, instant));
            sorted.lemma_filter_push(entry, was_asked_at(instant));
            front.lemma_filter_push(entry, was_asked_at(instant));
        }
        vstd::seq_lib::to_multiset_insert(sorted, at, entry);
        vstd::seq_lib::to_multiset_build(front, entry);
        inserted
    }
}

proof fn lemma_place_exists(sorted: Seq<BtwEntry>, entry: BtwEntry, from: int) -> (at: int)
    requires
        in_order_of_asking(sorted),
        0 <= from <= sorted.len(),
        forall|i: int|
            from <= i < sorted.len() ==> !(#[trigger] sorted[i]).asked_at.at_or_before(
                entry.asked_at,
            ),
    ensures
        0 <= at <= sorted.len(),
        forall|i: int|
            0 <= i < at ==> (#[trigger] sorted[i]).asked_at.at_or_before(entry.asked_at),
        forall|i: int|
            at <= i < sorted.len() ==> !(#[trigger] sorted[i]).asked_at.at_or_before(
                entry.asked_at,
            ),
    decreases from,
{
    if from == 0 {
        0
    } else if sorted[from - 1].asked_at.at_or_before(entry.asked_at) {
        assert forall|i: int| 0 <= i < from implies (#[trigger] sorted[i]).asked_at.at_or_before(
            entry.asked_at,
        ) by {
            assert(sorted[i].asked_at.at_or_before(sorted[from - 1].asked_at));
        }
        from
    } else {
        lemma_place_exists(sorted, entry, from - 1)
    }
}

/// Sorting by the time of asking neither loses an entry nor makes one up.
pub proof fn sorting_keeps_every_entry(entries: Seq<BtwEntry>, sorted: Seq<BtwEntry>)
    requires
        stably_sorted(entries, sorted),
    ensures
        sorted.to_multiset() == entries.to_multiset(),
        sorted.len() == entries.len(),
{
    let other = lemma_order_of_asking_exists(entries);
    order_of_asking_is_unique(entries, sorted, other);
    entries.to_multiset_ensures();
    sorted.to_multiset_ensures();
}

/// What is loaded from records are the asides that succeeded, with a question
/// and an answer, and no others; and they are in the order of asking.
pub proof fn loaded_asides_succeeded(
    records_read: Seq<Option<BtwEntry>>,
    entries: Seq<BtwEntry>,
    entry: BtwEntry,
)
    requires
        stably_sorted(successful(records_read), entries),
    ensures
        entries.contains(entry) <==> succeeded(entry) && records_read.contains(Some(entry)),
        in_order_of_asking(entries),
{
    sorting_keeps_every_entry(successful(records_read), entries);
    entries.to_multiset_ensures();
    successful(records_read).to_multiset_ensures();
    assert(entries.contains(entry) <==> successful(records_read).contains(entry)) by {
        assert(entries.contains(entry) <==> entries.to_multiset().count(entry) > 0);
        assert(successful(records_read).contains(entry) <==> successful(
            records_read,
        ).to_multiset().count(entry) > 0);
    }
    lemma_successful_contains(records_read, entry);
}

proof fn lemma_successful_contains(records_read: Seq<Option<BtwEntry>>, entry: BtwEntry)
    ensures
        successful(records_read).contains(entry) <==> succeeded(entry) && records_read.contains(
            Some(entry),
        ),
    decreases records_read.len(),
{
    reveal(Seq::filter_map);
    if records_read.len() > 0 {
        let front = records_read.drop_last();
        let last = records_read.last();
        lemma_successful_contains(front, entry);
        assert(records_read =~= front.push(last));
        assert(records_read.contains(Some(entry)) <==> front.contains(Some(entry)) || last == Some(
            entry,
        )) by {
            if front.contains(Some(entry)) {
                let i = choose|i: int| 0 <= i < front.len() && front[i] == Some(entry);
                assert(records_read[i] == Some(entry));
            }
            if last == Some(entry) {
                assert(records_read[records_read.len() - 1] == Some(entry));
            }
        }
        let kept = successful(front);
        match successful_record()(last) {
            Some(added) => {
                assert(successful(records_read) =~= kept.push(added));
                assert(kept.push(added).contains(entry) <==> kept.contains(entry) || added
                    == entry) by {
                    if kept.contains(entry) {
                        let i = choose|i: int| 0 <= i < kept.len() && kept[i] == entry;
                        assert(kept.push(added)[i] == entry);
                    }
                    if added == entry {
                        assert(kept.push(added)[kept.len() as int] == entry);
                    }
                }
            },
            None => {},
        }
    }
}

/// A rewind takes away exactly the asides that were asked in what it discarded,
/// and leaves the others in their order. Without one, all are left.
pub proof fn rewinds_take_what_they_discarded(
    entries: Seq<BtwEntry>,
    windows: Seq<(i64, i64)>,
    entry: BtwEntry,
)
    ensures
        surviving(entries, windows).contains(entry) <==> entries.contains(entry) && !in_a_window(
            entry.asked_at.second() as int,
            windows,
        ),
        in_order_of_asking(entries) ==> in_order_of_asking(surviving(entries, windows)),
        windows.len() == 0 ==> surviving(entries, windows) == entries,
    decreases entries.len(),
{
    let pred = asked_outside(windows);
    let kept = surviving(entries, windows);
    if kept.contains(entry) {
        entries.lemma_filter_contains_rev(pred, entry);
        let i = choose|i: int| 0 <= i < kept.len() && kept[i] == entry;
        entries.lemma_filter_pred(pred, i);
    }
    if entries.contains(entry) && pred(entry) {
        let i = choose|i: int| 0 <= i < entries.len() && entries[i] == entry;
        entries.lemma_filter_contains(pred, i);
    }
    if entries.len() > 0 {
        let front = entries.drop_last();
        rewinds_take_what_they_discarded(front, windows, entry);
        lemma_filter_of_last(entries, pred);
        assert(entries =~= front.push(entries.last()));
        if in_order_of_asking(entries) {
            assert forall|i: int, j: int| 0 <= i <= j < front.len() implies (
            #[trigger] front[i]).asked_at.at_or_before((#[trigger] front[j]).asked_at) by {
                assert(entries[i].asked_at.at_or_before(entries[j].asked_at));
            }
            assert forall|i: int, j: int| 0 <= i <= j < kept.len() implies (
            #[trigger] kept[i]).asked_at.at_or_before((#[trigger] kept[j]).asked_at) by {
                let kept_front = surviving(front, windows);
                if j < kept_front.len() {
                    assert(kept_front[i].asked_at.at_or_before(kept_front[j].asked_at));
                } else if i < kept_front.len() {
                    assert(kept_front.contains(kept_front[i]));
                    front.lemma_filter_contains_rev(pred, kept_front[i]);
                    let k = choose|k: int| 0 <= k < front.len() && front[k] == kept_front[i];
                    assert(entries[k].asked_at.at_or_before(
                        entries[entries.len() - 1].asked_at,
                    ));
                }
            }
        }
    }
}

/// An aside that is due before a line is due before every later one, and so is
/// every aside that was asked before it; before a line without a timestamp none
/// is due, and at the end of a replay each is.
pub proof fn what_is_due_stays_due(
    earlier: UtcInstant,
    later: UtcInstant,
    ts: i64,
    later_ts: i64,
)
    requires
        earlier.at_or_before(later),
        ts <= later_ts,
    ensures
        due(later, Some(ts), false) ==> due(later, Some(later_ts), false),
        due(later, Some(ts), false) ==> due(earlier, Some(ts), false),
        !due(later, None, false),
        forall|line_ts: Option<i64>| due(later, line_ts, true),
{
}

/// The asides that are loaded from a history succeeded, and are in the order of
/// asking.
pub proof fn loaded_asides_are_in_order<P: Fn(&str) -> Option<BtwEntry>>(
    parse: P,
    history: Seq<char>,
    entries: Seq<BtwEntry>,
    entry: BtwEntry,
)
    requires
        loaded_from(parse, history, entries),
    ensures
        in_order_of_asking(entries),
        entries.contains(entry) ==> succeeded(entry),
{
    let outcomes = choose|outcomes: Seq<Option<BtwEntry>>|
        #![trigger all_read_as(parse, text::records(history), outcomes)]
        all_read_as(parse, text::records(history), outcomes) && stably_sorted(
            successful(outcomes),
            entries,
        );
    loaded_asides_succeeded(outcomes, entries, entry);
}

/// The asides that a replay restores succeeded, and are in the order of asking.
pub proof fn restored_asides_are_in_order<
    P: Fn(&str) -> Option<BtwEntry>,
    W: Fn(&Vec<&str>) -> Vec<(i64, i64)>,
>(
    parse: P,
    windows_of: W,
    history: Seq<char>,
    raw: Seq<char>,
    entries: Seq<BtwEntry>,
    entry: BtwEntry,
)
    requires
        restored_from(parse, windows_of, history, raw, entries),
    ensures
        in_order_of_asking(entries),
        entries.contains(entry) ==> succeeded(entry),
{
    let (loaded, windows) = choose|loaded: Seq<BtwEntry>, windows: Seq<(i64, i64)>| #[trigger]
        loaded_from(parse, history, loaded) && #[trigger] windows_found(windows_of, raw, windows)
            && entries == surviving(loaded, windows);
    loaded_asides_are_in_order(parse, history, loaded, entry);
    rewinds_take_what_they_discarded(loaded, windows, entry);
}

/// Whether `parse` makes one thing of one text.
pub open spec fn parses_one_way<P: Fn(&str) -> Option<BtwEntry>>(parse: P) -> bool {
    forall|a: &str, b: &str, x: Option<BtwEntry>, y: Option<BtwEntry>|
        a@ == b@ && #[trigger] call_ensures(parse, (a,), x) && #[trigger] call_ensures(
            parse,
            (b,),
            y,
        ) ==> x == y
}

/// Whether `windows_of` finds the same ranges in the same lines.
pub open spec fn finds_windows_one_way<W: Fn(&Vec<&str>) -> Vec<(i64, i64)>>(
    windows_of: W,
) -> bool {
    forall|a: Vec<&str>, b: Vec<&str>, x: Vec<(i64, i64)>, y: Vec<(i64, i64)>|
        text::contents(a@) == text::contents(b@) && #[trigger] call_ensures(windows_of, (&a,), x)
            && #[trigger] call_ensures(windows_of, (&b,), y) ==> x@ == y@
}

/// One history is loaded in one way: the same asides in the same order.
pub proof fn a_history_is_loaded_one_way<P: Fn(&str) -> Option<BtwEntry>>(
    parse: P,
    history: Seq<char>,
    a: Seq<BtwEntry>,
    b: Seq<BtwEntry>,
)
    requires
        parses_one_way(parse),
        loaded_from(parse, history, a),
        loaded_from(parse, history, b),
    ensures
        a == b,
{
    let records = text::records(history);
    let read_a = choose|outcomes: Seq<Option<BtwEntry>>|
        #![trigger all_read_as(parse, text::records(history), outcomes)]
        all_read_as(parse, text::records(history), outcomes) && stably_sorted(
            successful(outcomes),
            a,
        );
    let read_b = choose|outcomes: Seq<Option<BtwEntry>>|
        #![trigger all_read_as(parse, text::records(history), outcomes)]
        all_read_as(parse, text::records(history), outcomes) && stably_sorted(
            successful(outcomes),
            b,
        );
    assert forall|i: int| 0 <= i < records.len() implies read_a[i] == read_b[i] by {
        assert(read_as(parse, records[i], read_a[i]));
        assert(read_as(parse, records[i], read_b[i]));
    }
    assert(read_a =~= read_b);
    order_of_asking_is_unique(successful(read_a), a, b);
}

/// One history and one log restore the same asides in the same order.
pub proof fn asides_are_restored_one_way<
    P: Fn(&str) -> Option<BtwEntry>,
    W: Fn(&Vec<&str>) -> Vec<(i64, i64)>,
>(
    parse: P,
    windows_of: W,
    history: Seq<char>,
    raw: Seq<char>,
    a: Seq<BtwEntry>,
    b: Seq<BtwEntry>,
)
    requires
        parses_one_way(parse),
        finds_windows_one_way(windows_of),
        restored_from(parse, windows_of, history, raw, a),
        restored_from(parse, windows_of, history, raw, b),
    ensures
        a == b,
{
    let (loaded_a, windows_a) = choose|loaded: Seq<BtwEntry>, windows: Seq<(i64, i64)>| #[trigger]
        loaded_from(parse, history, loaded) && #[trigger] windows_found(windows_of, raw, windows)
            && a == surviving(loaded, windows);
    let (loaded_b, windows_b) = choose|loaded: Seq<BtwEntry>, windows: Seq<(i64, i64)>| #[trigger]
        loaded_from(parse, history, loaded) && #[trigger] windows_found(windows_of, raw, windows)
            && b == surviving(loaded, windows);
    a_history_is_loaded_one_way(parse, history, loaded_a, loaded_b);
    assert(windows_a == windows_b);
}

/// Whether one entry was asked no later than another: in an earlier second, or
/// in the same one and with no more nanoseconds after it.
pub open spec fn asked_no_later(a: BtwEntry, b: BtwEntry) -> bool {
    ||| a.asked_at.second() < b.asked_at.second()
    ||| a.asked_at.second() == b.asked_at.second() && a.asked_at.subsec() <= b.asked_at.subsec()
}

/// Whether entries that stood at `places` stand in the order of asking, and those
/// of one instant in the order of their places; no place occurs twice.
pub open spec fn ordered_from_places(entries: Seq<BtwEntry>, places: Seq<int>) -> bool {
    forall|j: int, k: int|
        0 <= j < k < entries.len() ==> {
            &&& #[trigger] places[j] != #[trigger] places[k]
            &&& asked_no_later(entries[j], entries[k])
            &&& asked_no_later(entries[k], entries[j]) ==> places[j] < places[k]
        }
}

proof fn lemma_sorted_places(entries: Seq<BtwEntry>) -> (witness: (Seq<BtwEntry>, Seq<int>))
    ensures
        stably_sorted(entries, witness.0),
        witness.0.len() == witness.1.len(),
        witness.0.len() == entries.len(),
        ordered_from_places(witness.0, witness.1),
        forall|k: int|
            0 <= k < witness.1.len() ==> 0 <= #[trigger] witness.1[k] < entries.len()
                && witness.0[k] == entries[witness.1[k]],
        forall|i: int| #[trigger] witness.1.contains(i) <==> 0 <= i < entries.len(),
    decreases entries.len(),
{
    if entries.len() == 0 {
        (entries, seq![])
    } else {
        let front = entries.drop_last();
        let entry = entries.last();
        let n = front.len() as int;
        let (sorted, places) = lemma_sorted_places(front);
        let at = lemma_place_exists(sorted, entry, sorted.len() as int);
        lemma_inserted_in_order(sorted, at, entry);
        let inserted = sorted.insert(at, entry);
        let all = places.insert(at, n);
        assert(entries =~= front.push(entry));
        assert forall|instant: UtcInstant| #[trigger]
            asked_at(inserted, instant) == asked_at(entries, instant) by {
            assert(asked_at(inserted, instant) == asked_at(sorted.push(entry), instant));
            assert(asked_at(sorted, instant) == asked_at(front, instant));
            sorted.lemma_filter_push(entry, was_asked_at(instant));
            front.lemma_filter_push(entry, was_asked_at(instant));
        }
        assert forall|k: int| 0 <= k < all.len() implies 0 <= #[trigger] all[k] < entries.len()
            && inserted[k] == entries[all[k]] by {
            if k < at {
                assert(all[k] == places[k]);
            } else if k > at {
                assert(all[k] == places[k - 1]);
            }
        }
        assert forall|j: int, k: int| 0 <= j < k < inserted.len() implies {
            &&& #[trigger] all[j] != #[trigger] all[k]
            &&& asked_no_later(inserted[j], inserted[k])
            &&& asked_no_later(inserted[k], inserted[j]) ==> all[j] < all[k]
        } by {
            let old_j = if j <= at { j } else { j - 1 };
            let old_k = if k <= at { k } else { k - 1 };
            if j != at && k != at {
                assert(all[j] == places[old_j]);
                assert(all[k] == places[old_k]);
            } else if j != at {
                assert(all[j] == places[old_j]);
                assert(sorted[old_j].asked_at.at_or_before(entry.asked_at));
            } else {
                assert(all[k] == places[old_k]);
                assert(!sorted[old_k].asked_at.at_or_before(entry.asked_at));
            }
        }
        assert forall|i: int| #[trigger] all.contains(i) <==> 0 <= i < entries.len() by {
            if all.contains(i) {
                let k = choose|k: int| 0 <= k < all.len() && all[k] == i;
                assert(0 <= all[k] < entries.len());
            }
            if i == n {
                assert(all[at] == n);
            } else if 0 <= i < n {
                assert(places.contains(i));
                let k = choose|k: int| 0 <= k < places.len() && places[k] == i;
                assert(all[if k < at { k } else { k + 1 }] == i);
            }
        }
        (inserted, all)
    }
}

/// Sorting by the time of asking moves entries and does nothing else: `sorted`
/// has each entry once, an earlier one before a later one, and two of the same
/// instant as they stood.
pub proof fn sorting_moves_every_entry_to_its_place(
    entries: Seq<BtwEntry>,
    sorted: Seq<BtwEntry>,
)
    requires
        stably_sorted(entries, sorted),
    ensures
        exists|places: Seq<int>|
            {
                &&& #[trigger] ordered_from_places(sorted, places)
                &&& places.len() == sorted.len()
                &&& sorted.len() == entries.len()
                &&& forall|k: int|
                    0 <= k < places.len() ==> 0 <= #[trigger] places[k] < entries.len()
                        && sorted[k] == entries[places[k]]
                &&& forall|i: int| #[trigger] places.contains(i) <==> 0 <= i < entries.len()
            },
{
    let (other, places) = lemma_sorted_places(entries);
    order_of_asking_is_unique(entries, sorted, other);
    assert(ordered_from_places(sorted, places));
}

/// Whether what was read in a line is an aside to be restored: it succeeded, it
/// has a question and an answer that are more than white space, and the second of
/// asking lies in none of `windows`.
pub open spec fn to_be_restored(outcome: Option<BtwEntry>, windows: Seq<(i64, i64)>) -> bool {
    match outcome {
        Some(entry) => {
            &&& entry.success
            &&& text::trimmed(entry.question@).len() > 0
            &&& text::trimmed(entry.answer@).len() > 0
            &&& forall|w: int|
                0 <= w < windows.len() ==> !((#[trigger] windows[w]).0 <= entry.asked_at.second()
                    <= windows[w].1)
        },
        None => false,
    }
}

/// Whether `outcomes` are what `parse` may read in `lines`, line by line, and
/// `entries` are the asides to be restored among them, those that were read in
/// the lines at `places`: each of them once, and in the order of asking.
pub open spec fn drawn_from<P: Fn(&str) -> Option<BtwEntry>>(
    parse: P,
    lines: Seq<Seq<char>>,
    windows: Seq<(i64, i64)>,
    entries: Seq<BtwEntry>,
    outcomes: Seq<Option<BtwEntry>>,
    places: Seq<int>,
) -> bool {
    &&& outcomes.len() == lines.len()
    &&& forall|i: int|
        0 <= i < lines.len() ==> if text::trimmed(lines[i]).len() == 0 {
            (#[trigger] outcomes[i]) is None
        } else {
            exists|slice: &str|
                slice@ == text::trimmed(lines[i]) && #[trigger] call_ensures(
                    parse,
                    (slice,),
                    outcomes[i],
                )
        }
    &&& places.len() == entries.len()
    &&& forall|k: int|
        0 <= k < places.len() ==> 0 <= #[trigger] places[k] < lines.len() && outcomes[places[k]]
            == Some(entries[k])
    &&& forall|i: int| #[trigger]
        places.contains(i) <==> 0 <= i < lines.len() && to_be_restored(outcomes[i], windows)
    &&& ordered_from_places(entries, places)
}

proof fn lemma_successful_places(outcomes: Seq<Option<BtwEntry>>) -> (places: Seq<int>)
    ensures
        text::increasing_places(places, outcomes.len() as int),
        places.len() == successful(outcomes).len(),
        forall|k: int|
            0 <= k < places.len() ==> outcomes[#[trigger] places[k]] == Some(
                successful(outcomes)[k],
            ),
        forall|i: int| #[trigger]
            places.contains(i) <==> 0 <= i < outcomes.len() && to_be_restored(
                outcomes[i],
                seq![],
            ),
    decreases outcomes.len(),
{
    reveal(Seq::filter_map);
    if outcomes.len() == 0 {
        seq![]
    } else {
        let front = outcomes.drop_last();
        let places = lemma_successful_places(front);
        let n = outcomes.len() - 1;
        let last = outcomes.last();
        assert(last matches Some(entry) ==> (succeeded(entry) <==> to_be_restored(last, seq![])))
            by {
            if let Some(entry) = last {
                text::trimmed_empty_iff_blank(entry.question@);
                text::trimmed_empty_iff_blank(entry.answer@);
            }
        }
        if to_be_restored(last, seq![]) {
            let all = places.push(n);
            assert(successful(outcomes) =~= successful(front).push(last->0));
            assert forall|i: int| #[trigger] all.contains(i) <==> 0 <= i < outcomes.len()
                && to_be_restored(outcomes[i], seq![]) by {
                if i == n {
                    assert(all[places.len() as int] == n);
                } else if places.contains(i) {
                    let k = choose|k: int| 0 <= k < places.len() && places[k] == i;
                    assert(all[k] == i);
                } else if all.contains(i) {
                    let k = choose|k: int| 0 <= k < all.len() && all[k] == i;
                    assert(places[k] == i);
                }
            }
            assert forall|k: int| 0 <= k < all.len() implies outcomes[#[trigger] all[k]] == Some(
                successful(outcomes)[k],
            ) by {
                if k < places.len() {
                    assert(all[k] == places[k]);
                }
            }
            all
        } else {
            assert(successful(outcomes) =~= successful(front));
            places
        }
    }
}

proof fn lemma_drawn_from_records<P: Fn(&str) -> Option<BtwEntry>>(
    parse: P,
    history: Seq<char>,
    read: Seq<Option<BtwEntry>>,
    entries: Seq<BtwEntry>,
) -> (witness: (Seq<Option<BtwEntry>>, Seq<int>))
    requires
        all_read_as(parse, text::records(history), read),
        stably_sorted(successful(read), entries),
    ensures
        drawn_from(
            parse,
            text::text_lines(history),
            seq![],
            entries,
            witness.0,
            witness.1,
        ),
{
    let lines = text::text_lines(history);
    let records = text::records(history);
    let inked = |line: Seq<char>| !text::blank(line);
    let line_of = text::lemma_filter_places(lines, inked);
    let record_of = lemma_successful_places(read);
    let (sorted, moved) = lemma_sorted_places(successful(read));
    order_of_asking_is_unique(successful(read), entries, sorted);
    let outcomes = Seq::new(
        lines.len(),
        |i: int|
            if line_of.contains(i) {
                read[line_of.index_of(i)]
            } else {
                None
            },
    );
    let places = Seq::new(entries.len(), |k: int| line_of[record_of[moved[k]]]);
    assert forall|r: int| 0 <= r < line_of.len() implies outcomes[#[trigger] line_of[r]] == read[r]
        by {
        assert(line_of.contains(line_of[r]));
        let q = line_of.index_of(line_of[r]);
        assert(line_of[q] == line_of[r]);
        assert(q == r) by {
            if q < r {
                assert(line_of[q] < line_of[r]);
            } else if r < q {
                assert(line_of[r] < line_of[q]);
            }
        }
    }
    assert forall|i: int| 0 <= i < lines.len() implies if text::trimmed(lines[i]).len() == 0 {
        (#[trigger] outcomes[i]) is None
    } else {
        exists|slice: &str|
            slice@ == text::trimmed(lines[i]) && #[trigger] call_ensures(
                parse,
                (slice,),
                outcomes[i],
            )
    } by {
        text::trimmed_empty_iff_blank(lines[i]);
        assert(inked(lines[i]) <==> line_of.contains(i));
        if line_of.contains(i) {
            let r = choose|r: int| 0 <= r < line_of.len() && line_of[r] == i;
            assert(records[r] == text::trimmed(lines[i]));
            assert(read_as(parse, records[r], read[r]));
            assert(outcomes[line_of[r]] == read[r]);
        }
    }
    assert forall|k: int| 0 <= k < places.len() implies 0 <= #[trigger] places[k] < lines.len()
        && outcomes[places[k]] == Some(entries[k]) by {
        let m = moved[k];
        assert(0 <= record_of[m] < read.len());
        assert(outcomes[line_of[record_of[m]]] == read[record_of[m]]);
    }
    assert forall|i: int| #[trigger] places.contains(i) <==> 0 <= i < lines.len()
        && to_be_restored(outcomes[i], seq![]) by {
        if places.contains(i) {
            let k = choose|k: int| 0 <= k < places.len() && places[k] == i;
            let r = record_of[moved[k]];
            assert(record_of.contains(r));
            assert(outcomes[line_of[r]] == read[r]);
        }
        if 0 <= i < lines.len() && to_be_restored(outcomes[i], seq![]) {
            assert(line_of.contains(i));
            let r = choose|r: int| 0 <= r < line_of.len() && line_of[r] == i;
            assert(outcomes[line_of[r]] == read[r]);
            assert(record_of.contains(r));
            let m = choose|m: int| 0 <= m < record_of.len() && record_of[m] == r;
            assert(moved.contains(m));
            let k = choose|k: int| 0 <= k < moved.len() && moved[k] == m;
            assert(places[k] == i);
        }
    }
    assert forall|j: int, k: int| 0 <= j < k < entries.len() implies {
        &&& #[trigger] places[j] != #[trigger] places[k]
        &&& asked_no_later(entries[j], entries[k])
        &&& asked_no_later(entries[k], entries[j]) ==> places[j] < places[k]
    } by {
        let a = moved[j];
        let b = moved[k];
        assert(a != b);
        assert(0 <= record_of[a] < read.len() && 0 <= record_of[b] < read.len());
        if a < b {
            assert(record_of[a] < record_of[b]);
            assert(line_of[record_of[a]] < line_of[record_of[b]]);
        } else {
            assert(record_of[b] < record_of[a]);
            assert(line_of[record_of[b]] < line_of[record_of[a]]);
        }
    }
    (outcomes, places)
}

/// What is loaded from a history are the asides in its lines: each line that is
/// more than white space is read, without the white space around it, and each
/// aside that was read, succeeded, and has a question and an answer is loaded
/// once, in the order of asking; and no other is.
pub proof fn every_aside_of_a_history_is_loaded<P: Fn(&str) -> Option<BtwEntry>>(
    parse: P,
    history: Seq<char>,
    entries: Seq<BtwEntry>,
)
    requires
        loaded_from(parse, history, entries),
    ensures
        exists|outcomes: Seq<Option<BtwEntry>>, places: Seq<int>| #[trigger]
            drawn_from(
                parse,
                text::text_lines(history),
                seq![],
                entries,
                outcomes,
                places,
            ),
{
    let read = choose|outcomes: Seq<Option<BtwEntry>>|
        #![trigger all_read_as(parse, text::records(history), outcomes)]
        all_read_as(parse, text::records(history), outcomes) && stably_sorted(
            successful(outcomes),
            entries,
        );
    let (outcomes, places) = lemma_drawn_from_records(parse, history, read, entries);
}

/// Whether `kept` are the entries of `entries`, in their order, whose second of
/// asking lies in none of `windows`, each of them counted.
pub open spec fn left_by_windows(
    entries: Seq<BtwEntry>,
    windows: Seq<(i64, i64)>,
    kept: Seq<BtwEntry>,
) -> bool {
    exists|places: Seq<int>|
        {
            &&& #[trigger] text::increasing_places(places, entries.len() as int)
            &&& places.len() == kept.len()
            &&& forall|k: int| 0 <= k < places.len() ==> kept[k] == entries[#[trigger] places[k]]
            &&& forall|i: int| #[trigger]
                places.contains(i) <==> 0 <= i < entries.len() && forall|w: int|
                    0 <= w < windows.len() ==> !((#[trigger] windows[w]).0
                        <= entries[i].asked_at.second() <= windows[w].1)
        }
}

proof fn lemma_surviving_places(entries: Seq<BtwEntry>, windows: Seq<(i64, i64)>) -> (places: Seq<
    int,
>)
    ensures
        text::increasing_places(places, entries.len() as int),
        places.len() == surviving(entries, windows).len(),
        forall|k: int|
            0 <= k < places.len() ==> surviving(entries, windows)[k] == entries[#[trigger] places[k]],
        forall|i: int| #[trigger]
            places.contains(i) <==> 0 <= i < entries.len() && forall|w: int|
                0 <= w < windows.len() ==> !((#[trigger] windows[w]).0
                    <= entries[i].asked_at.second() <= windows[w].1),
{
    let pred = asked_outside(windows);
    let places = text::lemma_filter_places(entries, pred);
    assert forall|i: int| #[trigger] places.contains(i) <==> 0 <= i < entries.len() && forall|
        w: int,
    |
        0 <= w < windows.len() ==> !((#[trigger] windows[w]).0 <= entries[i].asked_at.second()
            <= windows[w].1) by {
        assert(pred(entries[i]) <==> !in_a_window(entries[i].asked_at.second() as int, windows));
    }
    places
}

/// Whatever `windows_of` finds in the lines of a log that are not blank, the
/// entries that rewinds leave are those, and all those, that were asked in none
/// of the windows it found.
pub proof fn every_window_counts<W: Fn(&Vec<&str>) -> Vec<(i64, i64)>>(
    windows_of: W,
    raw: Seq<char>,
    windows: Seq<(i64, i64)>,
    entries: Seq<BtwEntry>,
    kept: Seq<BtwEntry>,
)
    requires
        windows_found(windows_of, raw, windows),
        kept == surviving(entries, windows),
    ensures
        exists|lines: Vec<&str>, found: Vec<(i64, i64)>|
            {
                &&& #[trigger] call_ensures(windows_of, (&lines,), found)
                &&& text::contents(lines@) == text::non_blank_text_lines(raw)
                &&& left_by_windows(entries, found@, kept)
                &&& forall|entry: BtwEntry|
                    #![trigger kept.contains(entry)]
                    kept.contains(entry) <==> entries.contains(entry) && forall|w: int|
                        0 <= w < found.len() ==> !((#[trigger] found@[w]).0
                            <= entry.asked_at.second() <= found@[w].1)
            },
{
    let (lines, found) = choose|lines: Vec<&str>, found: Vec<(i64, i64)>|
        text::contents(lines@) == text::non_blank_text_lines(raw) && found@ == windows
            && #[trigger] call_ensures(windows_of, (&lines,), found);
    let places = lemma_surviving_places(entries, found@);
    assert(left_by_windows(entries, found@, kept));
    assert forall|entry: BtwEntry|
        #![trigger kept.contains(entry)]
        kept.contains(entry) <==> entries.contains(entry) && forall|w: int|
            0 <= w < found.len() ==> !((#[trigger] found@[w]).0 <= entry.asked_at.second()
                <= found@[w].1) by {
        rewinds_take_what_they_discarded(entries, windows, entry);
        assert(in_a_window(entry.asked_at.second() as int, windows) <==> exists|w: int|
            0 <= w < found.len() && (#[trigger] found@[w]).0 <= entry.asked_at.second()
                <= found@[w].1);
    }
}

/// What a replay restores are the asides in the lines of the history that
/// succeeded, have a question and an answer, and were asked in none of the
/// windows that were found in the log: each of them once, in the order of asking;
/// and no other.
pub proof fn every_aside_that_rewinds_left_is_restored<
    P: Fn(&str) -> Option<BtwEntry>,
    W: Fn(&Vec<&str>) -> Vec<(i64, i64)>,
>(
    parse: P,
    windows_of: W,
    history: Seq<char>,
    raw: Seq<char>,
    entries: Seq<BtwEntry>,
)
    requires
        restored_from(parse, windows_of, history, raw, entries),
    ensures
        exists|
            lines: Vec<&str>,
            found: Vec<(i64, i64)>,
            outcomes: Seq<Option<BtwEntry>>,
            places: Seq<int>,
        |
            {
                &&& #[trigger] call_ensures(windows_of, (&lines,), found)
                &&& text::contents(lines@) == text::non_blank_text_lines(raw)
                &&& #[trigger] drawn_from(
                    parse,
                    text::text_lines(history),
                    found@,
                    entries,
                    outcomes,
                    places,
                )
            },
{
    let (loaded, windows) = choose|loaded: Seq<BtwEntry>, windows: Seq<(i64, i64)>| #[trigger]
        loaded_from(parse, history, loaded) && #[trigger] windows_found(windows_of, raw, windows)
            && entries == surviving(loaded, windows);
    let (lines, found) = choose|lines: Vec<&str>, found: Vec<(i64, i64)>|
        text::contents(lines@) == text::non_blank_text_lines(raw) && found@ == windows
            && #[trigger] call_ensures(windows_of, (&lines,), found);
    every_aside_of_a_history_is_loaded(parse, history, loaded);
    let all = text::text_lines(history);
    let (outcomes, from) = choose|outcomes: Seq<Option<BtwEntry>>, places: Seq<int>| #[trigger]
        drawn_from(parse, text::text_lines(history), seq![], loaded, outcomes, places);
    let left = lemma_surviving_places(loaded, windows);
    let places = Seq::new(entries.len(), |k: int| from[left[k]]);
    assert forall|k: int| 0 <= k < places.len() implies 0 <= #[trigger] places[k] < all.len()
        && outcomes[places[k]] == Some(entries[k]) by {
        assert(outcomes[from[left[k]]] == Some(loaded[left[k]]));
    }
    assert forall|i: int| #[trigger] places.contains(i) <==> 0 <= i < all.len() && to_be_restored(
        outcomes[i],
        windows,
    ) by {
        if places.contains(i) {
            let k = choose|k: int| 0 <= k < places.len() && places[k] == i;
            assert(left.contains(left[k]));
            assert(from.contains(from[left[k]]));
            assert(outcomes[from[left[k]]] == Some(loaded[left[k]]));
        }
        if 0 <= i < all.len() && to_be_restored(outcomes[i], windows) {
            assert(to_be_restored(outcomes[i], seq![]));
            assert(from.contains(i));
            let m = choose|m: int| 0 <= m < from.len() && from[m] == i;
            assert(outcomes[from[m]] == Some(loaded[m]));
            assert(left.contains(m));
            let k = choose|k: int| 0 <= k < left.len() && left[k] == m;
            assert(places[k] == i);
        }
    }
    assert forall|j: int, k: int| 0 <= j < k < entries.len() implies {
        &&& #[trigger] places[j] != #[trigger] places[k]
        &&& asked_no_later(entries[j], entries[k])
        &&& asked_no_later(entries[k], entries[j]) ==> places[j] < places[k]
    } by {
        assert(left[j] < left[k]);
        assert(from[left[j]] != from[left[k]]);
    }
    assert(drawn_from(parse, all, found@, entries, outcomes, places));
}

/// An aside is due before a line from the second on in which it was asked, and
/// not before a line of an earlier second.
pub proof fn an_aside_is_due_from_its_second_on(asked_at: UtcInstant)
    ensures
        due(asked_at, Some(asked_at.second()), false),
        forall|ts: i64| asked_at.second() < ts ==> due(asked_at, Some(ts), false),
        forall|ts: i64| ts < asked_at.second() ==> !due(asked_at, Some(ts), false),
{
}

} // verus!
