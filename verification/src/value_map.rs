//! The labelled readings of one status fragment.
use crate::text::{
    chars_of, pieces, ranges_within, same_text, split, split_ranges, text_le, text_lt, trim,
    trim_range,
};
use crate::value::{outcome_view, parse_value, Outcome, ParseError, Value, ValueView};
use itertools::Itertools;
use vstd::prelude::*;
use vstd::string::*;

verus! {

/// One entry of a map, as it is stored.
pub type Entry = (String, Result<Value, ParseError>);

/// The marker between two lines of a fragment.
pub open spec fn line_break() -> Seq<char> {
    seq!['<', 'b', 'r', '>']
}

/// The marker between a label and its value.
pub open spec fn label_separator() -> Seq<char> {
    seq![':']
}

/// Whether a line gives an entry: the separator cuts it in exactly two parts.
pub open spec fn is_data_line(line: Seq<char>) -> bool {
    split(line, label_separator()).len() == 2
}

/// The label of a line that gives an entry: its first part, trimmed.
pub open spec fn line_label(line: Seq<char>) -> Seq<char>
    recommends
        is_data_line(line),
{
    trim(split(line, label_separator())[0])
}

/// What a line that gives an entry holds for its label: its second part,
/// read as a value.
pub open spec fn line_outcome(line: Seq<char>) -> Outcome
    recommends
        is_data_line(line),
{
    parse_value(split(line, label_separator())[1])
}

/// The map that a run of lines gives: each line that has an entry sets its
/// label, a later line winning over an earlier one with the same label.
pub open spec fn lines_map(lines: Seq<Seq<char>>) -> Map<Seq<char>, Outcome>
    decreases lines.len(),
{
    if lines.len() == 0 {
        Map::empty()
    } else {
        let before = lines_map(lines.drop_last());
        if is_data_line(lines.last()) {
            before.insert(line_label(lines.last()), line_outcome(lines.last()))
        } else {
            before
        }
    }
}

/// The map that a fragment denotes.
pub open spec fn fragment_map(html: Seq<char>) -> Map<Seq<char>, Outcome> {
    lines_map(split(html, line_break()))
}

/// The lines that give an entry, in order.
pub open spec fn data_lines(lines: Seq<Seq<char>>) -> Seq<Seq<char>> {
    lines.filter(|line: Seq<char>| is_data_line(line))
}

/// Whether no two lines that give an entry have the same label.
pub open spec fn distinct_line_labels(lines: Seq<Seq<char>>) -> bool {
    forall|i: int, j: int|
        0 <= i < j < lines.len() && is_data_line(lines[i]) && is_data_line(lines[j])
            ==> line_label(lines[i]) != line_label(lines[j])
}

/// Lines that give no entry leave no trace: the map of a run of lines is the
/// map of those among them that give an entry.
pub proof fn lemma_other_lines_dropped(lines: Seq<Seq<char>>)
    ensures
        lines_map(lines) == lines_map(data_lines(lines)),
    decreases lines.len(),
{
    reveal(Seq::filter);
    if lines.len() > 0 {
        lemma_other_lines_dropped(lines.drop_last());
        if is_data_line(lines.last()) {
            let kept = data_lines(lines.drop_last()).push(lines.last());
            assert(kept.drop_last() =~= data_lines(lines.drop_last()));
        }
    }
}

/// The labels of the map of a run of lines are the labels of the lines that
/// give an entry, and the map is finite.
pub proof fn lemma_lines_map_dom(lines: Seq<Seq<char>>)
    ensures
        lines_map(lines).dom().finite(),
        forall|k: Seq<char>| #[trigger]
            lines_map(lines).contains_key(k) <==> exists|i: int|
                0 <= i < lines.len() && is_data_line(lines[i]) && line_label(lines[i]) == k,
    decreases lines.len(),
{
    if lines.len() > 0 {
        let before = lines.drop_last();
        let last = lines.len() - 1;
        lemma_lines_map_dom(before);
        assert forall|k: Seq<char>| #[trigger]
            lines_map(lines).contains_key(k) implies exists|i: int|
            0 <= i < lines.len() && is_data_line(lines[i]) && line_label(lines[i])
                == k by {
            if is_data_line(lines[last]) && line_label(lines[last]) == k {
            } else {
                let i = choose|i: int|
                    0 <= i < before.len() && is_data_line(before[i]) && line_label(before[i]) == k;
                assert(lines[i] == before[i]);
            }
        }
        assert forall|k: Seq<char>|
            (exists|i: int|
                0 <= i < lines.len() && is_data_line(lines[i]) && line_label(lines[i])
                    == k) implies #[trigger] lines_map(lines).contains_key(k) by {
            let i = choose|i: int|
                0 <= i < lines.len() && is_data_line(lines[i]) && line_label(lines[i]) == k;
            if i < last {
                assert(before[i] == lines[i]);
            }
        }
    }
}

/// Where no two lines that give an entry have the same label, the map has one
/// label for each such line, and holds for it what the line gives.
pub proof fn lemma_one_entry_per_data_line(lines: Seq<Seq<char>>)
    requires
        distinct_line_labels(lines),
    ensures
        lines_map(lines).len() == data_lines(lines).len(),
        forall|i: int|
            0 <= i < lines.len() && is_data_line(#[trigger] lines[i]) ==> lines_map(
                lines,
            ).contains_key(line_label(lines[i])) && lines_map(lines)[line_label(lines[i])] == line_outcome(lines[i]),
    decreases lines.len(),
{
    reveal(Seq::filter);
    if lines.len() > 0 {
        let before = lines.drop_last();
        let last = lines.len() - 1;
        assert forall|i: int, j: int|
            0 <= i < j < before.len() && is_data_line(before[i]) && is_data_line(
                before[j],
            ) implies line_label(before[i]) != line_label(before[j]) by {
            assert(before[i] == lines[i] && before[j] == lines[j]);
        }
        lemma_one_entry_per_data_line(before);
        lemma_lines_map_dom(before);
        if is_data_line(lines[last]) {
            let label = line_label(lines[last]);
            assert(!lines_map(before).contains_key(label)) by {
                if lines_map(before).contains_key(label) {
                    let i = choose|i: int|
                        0 <= i < before.len() && is_data_line(before[i]) && line_label(before[i]) == label;
                    assert(before[i] == lines[i]);
                }
            }
        }
        assert forall|i: int| 0 <= i < lines.len() && is_data_line(#[trigger] lines[i]) implies lines_map(
            lines,
        ).contains_key(line_label(lines[i])) && lines_map(lines)[line_label(lines[i])]
            == line_outcome(lines[i]) by {
            if i < last {
                assert(before[i] == lines[i]);
            }
        }
    }
}

/// The label of the entry at `i`.
pub open spec fn label_at(entries: Seq<Entry>, i: int) -> Seq<char> {
    entries[i].0@
}

/// Whether no label occurs twice in `entries`.
pub open spec fn distinct_labels(entries: Seq<Entry>) -> bool {
    forall|i: int, j: int|
        0 <= i < j < entries.len() ==> label_at(entries, i) != label_at(entries, j)
}

/// The map that `entries` denote, read from the left.
pub open spec fn entries_map(entries: Seq<Entry>) -> Map<Seq<char>, Outcome>
    decreases entries.len(),
{
    if entries.len() == 0 {
        Map::empty()
    } else {
        entries_map(entries.drop_last()).insert(
            entries.last().0@,
            outcome_view(entries.last().1),
        )
    }
}

/// The labels of `entries_map` are the labels of the entries, and the map is
/// finite.
pub proof fn lemma_entries_map_dom(entries: Seq<Entry>)
    ensures
        entries_map(entries).dom().finite(),
        forall|k: Seq<char>| #[trigger]
            entries_map(entries).contains_key(k) <==> exists|i: int|
                0 <= i < entries.len() && label_at(entries, i) == k,
    decreases entries.len(),
{
    if entries.len() > 0 {
        let before = entries.drop_last();
        lemma_entries_map_dom(before);
        assert forall|k: Seq<char>| #[trigger]
            entries_map(entries).contains_key(k) implies exists|i: int|
            0 <= i < entries.len() && label_at(entries, i) == k by {
            if k == entries.last().0@ {
                assert(label_at(entries, entries.len() - 1) == k);
            } else {
                let i = choose|i: int| 0 <= i < before.len() && label_at(before, i) == k;
                assert(label_at(entries, i) == k);
            }
        }
        assert forall|k: Seq<char>|
            (exists|i: int|
                0 <= i < entries.len() && label_at(entries, i) == k) implies #[trigger]
            entries_map(entries).contains_key(k) by {
            let i = choose|i: int| 0 <= i < entries.len() && label_at(entries, i) == k;
            if i < before.len() {
                assert(label_at(before, i) == k);
            }
        }
    }
}

/// Where no label occurs twice, each entry is what the map holds for its
/// label, and the map has as many labels as there are entries.
pub proof fn lemma_entries_map_distinct(entries: Seq<Entry>)
    requires
        distinct_labels(entries),
    ensures
        entries_map(entries).len() == entries.len(),
        forall|i: int|
            0 <= i < entries.len() ==> entries_map(entries)[#[trigger] label_at(entries, i)]
                == outcome_view(entries[i].1),
    decreases entries.len(),
{
    if entries.len() > 0 {
        let before = entries.drop_last();
        let last = entries.len() - 1;
        assert forall|i: int, j: int| 0 <= i < j < before.len() implies label_at(before, i)
            != label_at(before, j) by {
            assert(label_at(entries, i) != label_at(entries, j));
        }
        lemma_entries_map_distinct(before);
        lemma_entries_map_dom(before);
        assert(!entries_map(before).contains_key(entries.last().0@)) by {
            if entries_map(before).contains_key(entries.last().0@) {
                let i = choose|i: int|
                    0 <= i < before.len() && label_at(before, i) == entries.last().0@;
                assert(label_at(entries, i) != label_at(entries, last));
            }
        }
        assert forall|i: int| 0 <= i < entries.len() implies entries_map(entries)[#[trigger] label_at(
            entries,
            i,
        )] == outcome_view(entries[i].1) by {
            if i < last {
                assert(label_at(entries, i) != label_at(entries, last));
                assert(label_at(before, i) == label_at(entries, i));
            }
        }
    }
}

/// Replacing the outcome of an entry replaces what the map holds for its
/// label.
proof fn lemma_entries_map_update(entries: Seq<Entry>, i: int, entry: Entry)
    requires
        distinct_labels(entries),
        0 <= i < entries.len(),
        entry.0@ == label_at(entries, i),
    ensures
        distinct_labels(entries.update(i, entry)),
        entries_map(entries.update(i, entry)) == entries_map(entries).insert(
            entry.0@,
            outcome_view(entry.1),
        ),
{
    let after = entries.update(i, entry);
    assert forall|a: int, b: int| 0 <= a < b < after.len() implies label_at(after, a) != label_at(
        after,
        b,
    ) by {
        assert(label_at(entries, a) != label_at(entries, b));
        assert(label_at(after, a) == label_at(entries, a));
        assert(label_at(after, b) == label_at(entries, b));
    }
    lemma_entries_map_dom(entries);
    lemma_entries_map_dom(after);
    lemma_entries_map_distinct(entries);
    lemma_entries_map_distinct(after);
    let left = entries_map(after);
    let right = entries_map(entries).insert(entry.0@, outcome_view(entry.1));
    assert forall|k: Seq<char>| left.contains_key(k) <==> right.contains_key(k) by {
        if left.contains_key(k) {
            let j = choose|j: int| 0 <= j < after.len() && label_at(after, j) == k;
            assert(label_at(entries, j) == k);
        }
        if right.contains_key(k) {
            if k == entry.0@ {
                assert(label_at(after, i) == k);
            } else {
                let j = choose|j: int| 0 <= j < entries.len() && label_at(entries, j) == k;
                assert(label_at(after, j) == k);
            }
        }
    }
    assert forall|k: Seq<char>| left.contains_key(k) implies left[k] == right[k] by {
        let j = choose|j: int| 0 <= j < after.len() && label_at(after, j) == k;
        assert(left[label_at(after, j)] == outcome_view(after[j].1));
        if j != i {
            assert(label_at(entries, j) != label_at(entries, i));
            assert(entries_map(entries)[label_at(entries, j)] == outcome_view(entries[j].1));
        }
    }
    assert(left =~= right);
}

/// Whether `values` holds a value that was read for `label`.
pub open spec fn was_read(values: Map<Seq<char>, Outcome>, label: Seq<char>) -> bool {
    values.contains_key(label) && values[label] is Ok
}

/// Whether the labels of `fields` ascend in the order of `String`, equal
/// labels allowed.
pub open spec fn labels_ascend(fields: Seq<(&String, &Value)>) -> bool {
    forall|i: int, j: int| 0 <= i < j < fields.len() ==> text_le(fields[i].0@, fields[j].0@)
}

/// Calls `itertools::Itertools::sorted_by_key` on `fields`, with the label
/// as the key. What comes out holds the fields that went in, each as often
/// as it went in, with the labels ascending in the order of `String`.
#[verifier::external_body]
fn sorted_by_label<'a>(fields: Vec<(&'a String, &'a Value)>) -> (r: Vec<(&'a String, &'a Value)>)
    ensures
        r@.to_multiset() == fields@.to_multiset(),
        labels_ascend(r@),
{
    fields.into_iter().sorted_by_key(|field| field.0).collect()
}

/// The readings of one fragment, by label. No label occurs twice.
#[derive(Debug)]
pub struct ValueMap {
    entries: Vec<Entry>,
}

impl View for ValueMap {
    type V = Map<Seq<char>, Outcome>;

    closed spec fn view(&self) -> Map<Seq<char>, Outcome> {
        entries_map(self.entries@)
    }
}

impl Clone for ValueMap {
    fn clone(&self) -> (r: ValueMap)
        ensures
            r@ == self@,
    {
        proof {
            use_type_invariant(self);
        }
        let mut entries: Vec<Entry> = Vec::new();
        let mut i: usize = 0;
        while i < self.entries.len()
            invariant
                i <= self.entries.len(),
                entries@ == self.entries@.take(i as int),
            decreases self.entries.len() - i,
        {
            let outcome: Result<Value, ParseError> = match &self.entries[i].1 {
                Ok(value) => Ok(value.clone()),
                Err(e) => Err(*e),
            };
            entries.push((self.entries[i].0.clone(), outcome));
            assert(entries@ =~= self.entries@.take(i + 1));
            i += 1;
        }
        assert(entries@ =~= self.entries@);
        ValueMap { entries }
    }
}

impl ValueMap {
    #[verifier::type_invariant]
    spec fn distinct(&self) -> bool {
        distinct_labels(self.entries@)
    }

    /// A map without entries.
    pub fn new() -> (r: ValueMap)
        ensures
            r@ == Map::<Seq<char>, Outcome>::empty(),
    {
        ValueMap { entries: Vec::new() }
    }

    /// The number of labels.
    pub fn len(&self) -> (n: usize)
        ensures
            self@.dom().finite(),
            n == self@.len(),
    {
        proof {
            use_type_invariant(self);
            lemma_entries_map_dom(self.entries@);
            lemma_entries_map_distinct(self.entries@);
        }
        self.entries.len()
    }

    /// The entries, one for each label.
    pub fn entries(&self) -> (r: &Vec<Entry>)
        ensures
            distinct_labels(r@),
            entries_map(r@) == self@,
    {
        proof {
            use_type_invariant(self);
        }
        &self.entries
    }

    /// The place of `label` among the entries.
    fn position(&self, label: &str) -> (r: Option<usize>)
        ensures
            match r {
                Some(i) => i < self.entries.len() && label_at(self.entries@, i as int) == label@,
                None => forall|i: int|
                    0 <= i < self.entries.len() ==> label_at(self.entries@, i) != label@,
            },
    {
        let mut i: usize = 0;
        while i < self.entries.len()
            invariant
                i <= self.entries.len(),
                forall|j: int| 0 <= j < i ==> label_at(self.entries@, j) != label@,
            decreases self.entries.len() - i,
        {
            if same_text(self.entries[i].0.as_str(), label) {
                return Some(i);
            }
            i += 1;
        }
        None
    }

    /// What was read for `label`, if the map has it.
    pub fn get(&self, label: &str) -> (r: Option<&Result<Value, ParseError>>)
        ensures
            match r {
                Some(outcome) => self@.contains_key(label@) && self@[label@] == outcome_view(
                    *outcome,
                ),
                None => !self@.contains_key(label@),
            },
    {
        proof {
            use_type_invariant(self);
            lemma_entries_map_dom(self.entries@);
            lemma_entries_map_distinct(self.entries@);
        }
        match self.position(label) {
            Some(i) => {
                assert(self@[label_at(self.entries@, i as int)] == outcome_view(
                    self.entries@[i as int].1,
                ));
                Some(&self.entries[i].1)
            },
            None => None,
        }
    }

    /// Sets what was read for `label`, in place of what the map held for it.
    pub fn insert(&mut self, label: String, outcome: Result<Value, ParseError>)
        ensures
            final(self)@ == old(self)@.insert(label@, outcome_view(outcome)),
    {
        proof {
            use_type_invariant(&*self);
        }
        let found = self.position(label.as_str());
        let mut entries: Vec<Entry> = Vec::new();
        std::mem::swap(&mut entries, &mut self.entries);
        let ghost before = entries@;
        match found {
            Some(i) => {
                proof {
                    lemma_entries_map_update(before, i as int, (label, outcome));
                }
                entries.set(i, (label, outcome));
            },
            None => {
                entries.push((label, outcome));
                assert(entries@.drop_last() =~= before);
                assert forall|a: int, b: int| 0 <= a < b < entries@.len() implies label_at(
                    entries@,
                    a,
                ) != label_at(entries@, b) by {
                    assert(label_at(entries@, a) == label_at(before, a));
                    if b < before.len() {
                        assert(label_at(entries@, b) == label_at(before, b));
                    }
                }
            },
        }
        self.entries = entries;
    }

    /// The values that were read, each with its label, in the order of their
    /// labels. A label whose value could not be read is left out.
    pub fn sorted_fields(&self) -> (r: Vec<(&String, &Value)>)
        ensures
            forall|i: int, j: int| 0 <= i < j < r.len() ==> text_lt(r[i].0@, r[j].0@),
            forall|i: int|
                0 <= i < r.len() ==> self@.contains_key(#[trigger] r[i].0@) && self@[r[i].0@]
                    == Ok::<ValueView, ParseError>(r[i].1@),
            forall|label: Seq<char>| #[trigger]
                was_read(self@, label) ==> exists|i: int| 0 <= i < r.len() && r[i].0@ == label,
    {
        proof {
            use_type_invariant(self);
            lemma_entries_map_dom(self.entries@);
            lemma_entries_map_distinct(self.entries@);
        }
        let entries = &self.entries;
        let mut picked: Vec<(&String, &Value)> = Vec::new();
        let ghost mut origin: Seq<int> = Seq::empty();
        let mut n: usize = 0;
        while n < entries.len()
            invariant
                n <= entries.len(),
                origin.len() == picked.len(),
                forall|j: int|
                    0 <= j < origin.len() ==> 0 <= #[trigger] origin[j] < n && entries[origin[j]].1
                        == Ok::<Value, ParseError>(*picked[j].1) && entries[origin[j]].0
                        == *picked[j].0,
                forall|j: int, k: int| 0 <= j < k < origin.len() ==> origin[j] < origin[k],
                forall|idx: int|
                    0 <= idx < n && (#[trigger] entries[idx]).1 is Ok ==> exists|j: int|
                        0 <= j < origin.len() && origin[j] == idx,
            decreases entries.len() - n,
        {
            let ghost before = origin;
            match &entries[n].1 {
                Ok(value) => {
                    picked.push((&entries[n].0, value));
                    proof {
                        origin = origin.push(n as int);
                    }
                },
                Err(_) => {},
            }
            assert forall|idx: int| 0 <= idx < n + 1 && (#[trigger] entries[idx]).1 is Ok implies exists|
                j: int,
            | 0 <= j < origin.len() && origin[j] == idx by {
                if idx < n {
                    let j = choose|j: int| 0 <= j < before.len() && before[j] == idx;
                    assert(origin[j] == idx);
                } else {
                    assert(origin[origin.len() - 1] == idx);
                }
            }
            n += 1;
        }
        assert(picked@.no_duplicates()) by {
            assert forall|j: int, k: int|
                0 <= j < picked.len() && 0 <= k < picked.len() && j != k implies picked@[j]
                != picked@[k] by {
                assert(origin[j] != origin[k]);
                if origin[j] < origin[k] {
                    assert(label_at(entries@, origin[j]) != label_at(entries@, origin[k]));
                } else {
                    assert(label_at(entries@, origin[k]) != label_at(entries@, origin[j]));
                }
            }
        }
        let sorted = sorted_by_label(picked);
        proof {
            picked@.to_multiset_ensures();
            sorted@.to_multiset_ensures();
            picked@.lemma_multiset_has_no_duplicates();
            sorted@.lemma_multiset_has_no_duplicates_conv();
            assert forall|i: int| 0 <= i < sorted.len() implies exists|j: int|
                0 <= j < picked.len() && picked@[j] == #[trigger] sorted@[i] by {
                assert(sorted@.contains(sorted@[i]));
                assert(sorted@.to_multiset().count(sorted@[i]) > 0);
                assert(picked@.to_multiset().count(sorted@[i]) > 0);
                assert(picked@.contains(sorted@[i]));
            }
            assert forall|i: int| 0 <= i < sorted.len() implies self@.contains_key(
                #[trigger] sorted[i].0@,
            ) && self@[sorted[i].0@] == Ok::<ValueView, ParseError>(sorted[i].1@) by {
                let j = choose|j: int| 0 <= j < picked.len() && picked@[j] == sorted@[i];
                assert(label_at(entries@, origin[j]) == sorted[i].0@);
            }
            assert forall|i: int, j: int| 0 <= i < j < sorted.len() implies text_lt(
                sorted[i].0@,
                sorted[j].0@,
            ) by {
                let a = choose|a: int| 0 <= a < picked.len() && picked@[a] == sorted@[i];
                let b = choose|b: int| 0 <= b < picked.len() && picked@[b] == sorted@[j];
                assert(sorted@[i] != sorted@[j]);
                assert(a != b);
                assert(origin[a] != origin[b]);
                if origin[a] < origin[b] {
                    assert(label_at(entries@, origin[a]) != label_at(entries@, origin[b]));
                } else {
                    assert(label_at(entries@, origin[b]) != label_at(entries@, origin[a]));
                }
            }
            assert forall|label: Seq<char>| #[trigger] was_read(self@, label) implies exists|
                i: int,
            | 0 <= i < sorted.len() && sorted[i].0@ == label by {
                let idx = choose|idx: int|
                    0 <= idx < entries.len() && label_at(entries@, idx) == label;
                assert(self@[label_at(entries@, idx)] == outcome_view(entries@[idx].1));
                assert(entries[idx].1 is Ok);
                let j = choose|j: int| 0 <= j < origin.len() && origin[j] == idx;
                assert(picked@.contains(picked@[j]));
                assert(picked@.to_multiset().count(picked@[j]) > 0);
                assert(sorted@.to_multiset().count(picked@[j]) > 0);
                assert(sorted@.contains(picked@[j]));
                let i = choose|i: int| 0 <= i < sorted.len() && sorted@[i] == picked@[j];
                assert(sorted[i].0@ == label);
            }
        }
        sorted
    }

    /// Reads the labelled values of a fragment. A line that the label
    /// separator does not cut in exactly two parts gives no entry; a value
    /// that cannot be read is kept, with the reason, under its label.
    pub fn from_partial_html(html: &str) -> (r: ValueMap)
        ensures
            r@ == fragment_map(html@),
    {
        let buf = chars_of(html);
        let br: Vec<char> = vec!['<', 'b', 'r', '>'];
        let colon: Vec<char> = vec![':'];
        assert(br@ =~= line_break());
        assert(colon@ =~= label_separator());
        assert(buf@.subrange(0, buf.len() as int) =~= html@);
        let lines = split_ranges(&buf, 0, buf.len(), &br);
        let ghost all = pieces(buf@, lines@);
        let mut map = ValueMap::new();
        let mut n: usize = 0;
        while n < lines.len()
            invariant
                n <= lines.len(),
                buf@ == html@,
                colon@ == label_separator(),
                all == pieces(buf@, lines@),
                ranges_within(lines@, 0, buf.len() as int),
                map@ == lines_map(all.take(n as int)),
            decreases lines.len() - n,
        {
            let (lo, hi) = lines[n];
            assert(all.take(n + 1).drop_last() =~= all.take(n as int));
            assert(all.take(n + 1).last() == buf@.subrange(lo as int, hi as int));
            let parts = split_ranges(&buf, lo, hi, &colon);
            if parts.len() == 2 {
                let (k_lo, k_hi) = parts[0];
                let (v_lo, v_hi) = parts[1];
                assert(pieces(buf@, parts@)[0] == buf@.subrange(k_lo as int, k_hi as int));
                assert(pieces(buf@, parts@)[1] == buf@.subrange(v_lo as int, v_hi as int));
                let (l_lo, l_hi) = trim_range(&buf, k_lo, k_hi);
                let label: String = html.substring_char(l_lo, l_hi).to_owned();
                let outcome = Value::parse_range(html, &buf, v_lo, v_hi);
                map.insert(label, outcome);
            }
            n += 1;
        }
        assert(all.take(n as int) =~= all);
        map
    }
}

} // verus!
