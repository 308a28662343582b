//! What the compiler takes of a loaded rule: its id and the entries of its
//! detection section, one of which is the condition.

use vstd::prelude::*;
use vstd::string::*;

verus! {

/// The value of one entry of a detection section.
#[derive(Debug, PartialEq)]
pub enum DetectionTypes {
    Boolean(bool),
    Number(i64),
    String(String),
    Sequence(Vec<DetectionTypes>),
    /// The entries of a mapping, each a key with its value. A mapping is a
    /// map: in a well-formed value no key occurs twice in it.
    Mapping(Option<Vec<(String, DetectionTypes)>>),
}

/// A loaded rule, as far as its condition is concerned.
#[derive(Debug, PartialEq)]
pub struct SigmaRule {
    pub id: String,
    /// The entries of the detection section, each a key with its value: the
    /// search blocks by name, and the condition under the key `condition`.
    /// The section is a map: in a well-formed rule no key occurs twice.
    pub detection: Vec<(String, DetectionTypes)>,
}

impl DetectionTypes {
    /// Every mapping in the value is a map: no key occurs twice in it.
    pub open spec fn well_formed(self) -> bool
        decreases self, 0nat,
    {
        match self {
            DetectionTypes::Sequence(items) => items_well_formed(items, 0),
            DetectionTypes::Mapping(Some(entries)) => distinct_keys(entries@)
                && entries_well_formed(entries, 0),
            _ => true,
        }
    }

    /// Whether every mapping in the value is a map.
    pub fn is_well_formed(&self) -> (r: bool)
        ensures
            r == self.well_formed(),
        decreases self, 0nat,
    {
        match self {
            DetectionTypes::Sequence(items) => are_items_well_formed(items),
            DetectionTypes::Mapping(Some(entries)) => has_distinct_keys(entries)
                && are_entries_well_formed(entries),
            _ => true,
        }
    }
}

/// Every item from index `from` on is well formed.
pub open spec fn items_well_formed(items: Vec<DetectionTypes>, from: int) -> bool
    decreases items, items.len() - from,
{
    if 0 <= from < items.len() {
        items[from].well_formed() && items_well_formed(items, from + 1)
    } else {
        true
    }
}

/// The value of every entry from index `from` on is well formed.
pub open spec fn entries_well_formed(entries: Vec<(String, DetectionTypes)>, from: int) -> bool
    decreases entries, entries.len() - from,
{
    if 0 <= from < entries.len() {
        entries[from].1.well_formed() && entries_well_formed(entries, from + 1)
    } else {
        true
    }
}

/// Whether every item is well formed.
fn are_items_well_formed(items: &Vec<DetectionTypes>) -> (r: bool)
    ensures
        r == items_well_formed(*items, 0),
    decreases items, 1nat,
{
    let mut i: usize = 0;
    while i < items.len()
        invariant
            i <= items.len(),
            items_well_formed(*items, 0) == items_well_formed(*items, i as int),
        decreases items.len() - i,
    {
        if !items[i].is_well_formed() {
            return false;
        }
        i = i + 1;
    }
    true
}

/// Whether the value of every entry is well formed.
fn are_entries_well_formed(entries: &Vec<(String, DetectionTypes)>) -> (r: bool)
    ensures
        r == entries_well_formed(*entries, 0),
    decreases entries, 1nat,
{
    let mut i: usize = 0;
    while i < entries.len()
        invariant
            i <= entries.len(),
            entries_well_formed(*entries, 0) == entries_well_formed(*entries, i as int),
        decreases entries.len() - i,
    {
        if !entries[i].1.is_well_formed() {
            return false;
        }
        i = i + 1;
    }
    true
}

impl SigmaRule {
    /// The detection section is a map, and so is every mapping in it: no key
    /// occurs twice. So there is at most one condition, and no search block
    /// is declared twice.
    pub open spec fn well_formed(self) -> bool {
        distinct_keys(self.detection@) && entries_well_formed(self.detection, 0)
    }

    /// Whether the rule is well formed.
    pub fn is_well_formed(&self) -> (r: bool)
        ensures
            r == self.well_formed(),
    {
        has_distinct_keys(&self.detection) && are_entries_well_formed(&self.detection)
    }
}

/// No key occurs twice among the entries.
pub open spec fn distinct_keys(detection: Seq<(String, DetectionTypes)>) -> bool {
    keys_of(detection).no_duplicates()
}

/// The reserved key of a detection section that holds the condition.
pub open spec fn condition_key() -> Seq<char> {
    seq!['c', 'o', 'n', 'd', 'i', 't', 'i', 'o', 'n']
}

/// The text that a condition value reads as: a string reads as itself, a
/// boolean or a number as the word `condition`, which names no search
/// block, and a sequence or mapping as nothing.
pub open spec fn condition_text(value: DetectionTypes) -> Seq<char> {
    match value {
        DetectionTypes::Boolean(_) => condition_key(),
        DetectionTypes::Number(_) => condition_key(),
        DetectionTypes::String(text) => text@,
        DetectionTypes::Sequence(_) => Seq::empty(),
        DetectionTypes::Mapping(_) => Seq::empty(),
    }
}

/// The keys of the entries, in order.
pub open spec fn keys_of(detection: Seq<(String, DetectionTypes)>) -> Seq<Seq<char>> {
    Seq::new(detection.len(), |i: int| detection[i].0@)
}

/// The index of the first entry from `from` on whose key is `key`.
pub open spec fn index_of_key(keys: Seq<Seq<char>>, key: Seq<char>, from: int) -> Option<int>
    decreases keys.len() - from,
{
    if 0 <= from < keys.len() {
        if keys[from] == key {
            Some(from)
        } else {
            index_of_key(keys, key, from + 1)
        }
    } else {
        None
    }
}

/// The first entry under the key `condition`, by its index.
pub open spec fn condition_index(detection: Seq<(String, DetectionTypes)>) -> Option<int> {
    index_of_key(keys_of(detection), condition_key(), 0)
}

/// The text of the rule's condition: that of the entry under `condition`,
/// if there is one and its text is not empty.
pub open spec fn condition_of(detection: Seq<(String, DetectionTypes)>) -> Option<Seq<char>> {
    match condition_index(detection) {
        Some(i) => {
            let text = condition_text(detection[i].1);
            if text.len() > 0 {
                Some(text)
            } else {
                None
            }
        },
        None => None,
    }
}

/// Whether a key names a search block: every key but `condition` does.
pub open spec fn names_search_block() -> spec_fn(Seq<char>) -> bool {
    |key: Seq<char>| key != condition_key()
}

/// The declared search blocks of a rule: the keys of its detection section
/// without `condition`, in order.
pub open spec fn search_identifiers_of(detection: Seq<(String, DetectionTypes)>) -> Seq<
    Seq<char>,
> {
    keys_of(detection).filter(names_search_block())
}

/// Filtering a sequence without duplicates leaves none.
pub proof fn lemma_filter_no_duplicates(keys: Seq<Seq<char>>, pred: spec_fn(Seq<char>) -> bool)
    requires
        keys.no_duplicates(),
    ensures
        keys.filter(pred).no_duplicates(),
    decreases keys.len(),
{
    reveal(Seq::filter);
    if keys.len() > 0 {
        let shorter = keys.drop_last();
        assert(shorter.no_duplicates()) by {
            assert forall|i: int, j: int|
                0 <= i < shorter.len() && 0 <= j < shorter.len() && i != j implies shorter[i]
                != shorter[j] by {
                assert(shorter[i] == keys[i] && shorter[j] == keys[j]);
            }
        }
        lemma_filter_no_duplicates(shorter, pred);
        if pred(keys.last()) {
            let kept = shorter.filter(pred);
            if kept.contains(keys.last()) {
                shorter.lemma_filter_contains_rev(pred, keys.last());
                let i = choose|i: int| 0 <= i < shorter.len() && shorter[i] == keys.last();
                assert(keys[i] == keys[keys.len() - 1]);
                assert(false);
            }
            assert forall|i: int, j: int|
                0 <= i < kept.push(keys.last()).len() && 0 <= j < kept.push(keys.last()).len()
                    && i != j implies kept.push(keys.last())[i] != kept.push(keys.last())[j] by {
                if i < kept.len() {
                    assert(kept.contains(kept[i]));
                }
                if j < kept.len() {
                    assert(kept.contains(kept[j]));
                }
            }
        }
    }
}

/// In a detection section without repeated keys the condition is the one
/// entry under its key, and no search block is declared twice.
pub proof fn lemma_distinct_keys(detection: Seq<(String, DetectionTypes)>)
    requires
        distinct_keys(detection),
    ensures
        search_identifiers_of(detection).no_duplicates(),
        !search_identifiers_of(detection).contains(condition_key()),
        condition_index(detection) matches Some(i) ==> 0 <= i < detection.len() && forall|
            j: int,
        |
            0 <= j < detection.len() && j != i ==> #[trigger] keys_of(detection)[j]
                != condition_key(),
{
    let keys = keys_of(detection);
    lemma_filter_no_duplicates(keys, names_search_block());
    let found = search_identifiers_of(detection);
    if found.contains(condition_key()) {
        let i = choose|i: int| 0 <= i < found.len() && found[i] == condition_key();
        keys.lemma_filter_pred(names_search_block(), i);
    }
    lemma_index_of_key(keys, condition_key(), 0);
}

/// An index found from `from` on is that of the first entry under the key.
pub proof fn lemma_index_of_key(keys: Seq<Seq<char>>, key: Seq<char>, from: int)
    requires
        0 <= from,
    ensures
        match index_of_key(keys, key, from) {
            Some(i) => from <= i < keys.len() && keys[i] == key && forall|j: int|
                from <= j < i ==> #[trigger] keys[j] != key,
            None => forall|j: int| from <= j < keys.len() ==> #[trigger] keys[j] != key,
        },
    decreases keys.len() - from,
{
    if from < keys.len() && keys[from] != key {
        lemma_index_of_key(keys, key, from + 1);
    }
}

/// Whether no key occurs twice among the entries.
pub fn has_distinct_keys(detection: &Vec<(String, DetectionTypes)>) -> (r: bool)
    ensures
        r == distinct_keys(detection@),
{
    let ghost keys = keys_of(detection@);
    let mut i: usize = 0;
    while i < detection.len()
        invariant
            i <= detection.len(),
            keys == keys_of(detection@),
            forall|a: int, b: int| 0 <= a < b < i ==> keys[a] != keys[b],
        decreases detection.len() - i,
    {
        let mut j: usize = 0;
        while j < i
            invariant
                j <= i < detection.len(),
                keys == keys_of(detection@),
                forall|a: int| 0 <= a < j ==> keys[a] != keys[i as int],
            decreases i - j,
        {
            if detection[j].0 == detection[i].0 {
                assert(keys[j as int] == keys[i as int]);
                return false;
            }
            j = j + 1;
        }
        i = i + 1;
    }
    assert forall|a: int, b: int|
        0 <= a < keys.len() && 0 <= b < keys.len() && a != b implies keys[a] != keys[b] by {
        if a < b {
        } else {
            assert(keys[b] != keys[a]);
        }
    }
    true
}

/// Whether `key` is the reserved key `condition`.
pub fn is_condition_key(key: &str) -> (r: bool)
    ensures
        r == (key@ == condition_key()),
{
    proof {
        reveal_strlit("condition");
    }
    assert("condition"@ =~= condition_key());
    let reserved = "condition".to_owned();
    let given = key.to_owned();
    given == reserved
}

/// The value of the first entry under the key `condition`.
pub fn find_condition(detection: &Vec<(String, DetectionTypes)>) -> (r: Option<&DetectionTypes>)
    ensures
        match r {
            Some(value) => condition_index(detection@) matches Some(i) && *value
                == detection@[i].1,
            None => condition_index(detection@) is None,
        },
{
    let ghost keys = keys_of(detection@);
    let mut i: usize = 0;
    while i < detection.len()
        invariant
            i <= detection.len(),
            keys == keys_of(detection@),
            index_of_key(keys, condition_key(), 0) == index_of_key(keys, condition_key(), i as int),
        decreases detection.len() - i,
    {
        if is_condition_key(detection[i].0.as_str()) {
            return Some(&detection[i].1);
        }
        i = i + 1;
    }
    None
}

/// The declared search blocks of a rule: the keys of its detection section
/// without `condition`, in order.
pub fn search_identifiers_in(detection: &Vec<(String, DetectionTypes)>) -> (r: Vec<String>)
    ensures
        r.deep_view() == search_identifiers_of(detection@),
        distinct_keys(detection@) ==> r.deep_view().no_duplicates(),
{
    proof {
        if distinct_keys(detection@) {
            lemma_distinct_keys(detection@);
        }
    }
    let mut out: Vec<String> = Vec::new();
    let ghost keys = keys_of(detection@);
    let ghost pred = names_search_block();
    let mut i: usize = 0;
    proof {
        reveal(Seq::filter);
        assert(keys.take(0) =~= Seq::empty());
        assert(out.deep_view() =~= Seq::empty());
    }
    while i < detection.len()
        invariant
            i <= detection.len(),
            keys == keys_of(detection@),
            pred == names_search_block(),
            out.deep_view() == keys.take(i as int).filter(pred),
        decreases detection.len() - i,
    {
        let ghost before = out.deep_view();
        proof {
            assert(keys.take(i as int + 1) =~= keys.take(i as int).push(keys[i as int]));
            keys.take(i as int).lemma_filter_push(keys[i as int], pred);
        }
        if !is_condition_key(detection[i].0.as_str()) {
            out.push(detection[i].0.clone());
            assert(out.deep_view() =~= before.push(keys[i as int]));
        }
        i = i + 1;
    }
    assert(keys.take(i as int) =~= keys);
    out
}

} // verus!
