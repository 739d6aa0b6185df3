//! The command surface: from the tokens of a command line to the one
//! workload they select, with every parameter filled in.

use vstd::prelude::*;
use vstd::string::*;

verus! {

/// Whether two texts hold the same characters.
pub fn same_text(left: &str, right: &str) -> (same: bool)
    ensures
        same == (left@ == right@),
{
    let n = left.unicode_len();
    if n != right.unicode_len() {
        return false;
    }
    let mut i: usize = 0;
    while i < n
        invariant
            i <= n,
            n == left@.len(),
            n == right@.len(),
            left@.take(i as int) == right@.take(i as int),
        decreases n - i,
    {
        if left.get_char(i) != right.get_char(i) {
            return false;
        }
        i += 1;
        assert(left@.take(i as int) =~= left@.take(i - 1).push(left@[i - 1]));
        assert(right@.take(i as int) =~= right@.take(i - 1).push(right@[i - 1]));
    }
    assert(left@ =~= left@.take(n as int));
    assert(right@ =~= right@.take(n as int));
    true
}

/// Whether `c` is a decimal digit.
pub open spec fn is_digit(c: char) -> bool {
    '0' <= c <= '9'
}

/// The number that a run of decimal digits writes.
pub open spec fn digits_value(digits: Seq<char>) -> nat
    decreases digits.len(),
{
    if digits.len() == 0 {
        0
    } else {
        digits_value(digits.drop_last()) * 10 + (digits.last() as u32 - '0' as u32) as nat
    }
}

/// A text without the plus sign that may stand in front of a number.
pub open spec fn unsigned(text: Seq<char>) -> Seq<char> {
    if text.len() > 0 && text[0] == '+' {
        text.drop_first()
    } else {
        text
    }
}

/// The count that a text writes: decimal digits, at least one, with or
/// without a plus sign in front, and a value that a `usize` holds. Any other
/// text writes no count.
pub open spec fn count_of(text: Seq<char>) -> Option<usize> {
    let digits = unsigned(text);
    if digits.len() > 0 && (forall|i: int| 0 <= i < digits.len() ==> is_digit(#[trigger] digits[i]))
        && digits_value(digits) <= usize::MAX {
        Some(digits_value(digits) as usize)
    } else {
        None
    }
}

/// A longer run of digits writes no smaller number than its beginning.
proof fn lemma_digits_grow(digits: Seq<char>, short: int)
    requires
        0 <= short <= digits.len(),
        forall|i: int| 0 <= i < digits.len() ==> is_digit(#[trigger] digits[i]),
    ensures
        digits_value(digits.take(short)) <= digits_value(digits),
    decreases digits.len() - short,
{
    if short < digits.len() {
        let longer = digits.take(short + 1);
        assert(longer.drop_last() =~= digits.take(short));
        assert(is_digit(digits[short]));
        assert(longer.last() == digits[short]);
        lemma_digits_grow(digits, short + 1);
    } else {
        assert(digits.take(short) =~= digits);
    }
}

/// Reads a count from a text.
pub fn parse_count(text: &str) -> (count: Option<usize>)
    ensures
        count == count_of(text@),
{
    let n = text.unicode_len();
    let start: usize = if n > 0 && text.get_char(0) == '+' {
        1
    } else {
        0
    };
    if start == n {
        return None;
    }
    let ghost digits = unsigned(text@);
    assert(digits =~= text@.subrange(start as int, n as int));
    let mut value: usize = 0;
    let mut i: usize = start;
    while i < n
        invariant
            start <= i <= n,
            n == text@.len(),
            digits == text@.subrange(start as int, n as int),
            digits == unsigned(text@),
            forall|k: int| 0 <= k < i - start ==> is_digit(#[trigger] digits[k]),
            value == digits_value(digits.take(i - start)),
        decreases n - i,
    {
        let c = text.get_char(i);
        assert(c == digits[i - start]);
        if c < '0' || c > '9' {
            assert(!is_digit(digits[i - start]));
            return None;
        }
        let digit: usize = (c as u32 - '0' as u32) as usize;
        proof {
            let longer = digits.take(i - start + 1);
            assert(longer.drop_last() =~= digits.take(i - start));
            assert(longer.last() == c);
            assert(digits_value(longer) == value * 10 + digit);
            if forall|k: int| 0 <= k < digits.len() ==> is_digit(#[trigger] digits[k]) {
                lemma_digits_grow(digits, i - start + 1);
            }
        }
        if value > (usize::MAX - digit) / 10 {
            assert(value * 10 + digit > usize::MAX);
            return None;
        }
        value = value * 10 + digit;
        i += 1;
    }
    assert(digits.take(n - start) =~= digits);
    Some(value)
}

/// The workload that a command line selects, with its parameters.
#[derive(Clone, Copy, Debug, PartialEq, Eq, Structural)]
pub enum Selection {
    ParallelMap { base_size: usize, expand_size: usize },
    OrderedSet { iteration: usize, insertion: usize, deletion: usize },
    JsonParse { iteration: usize },
    HashSet { iteration: usize, insertion: usize, deletion: usize },
    Skiplist { thread: usize, insertion: usize, deletion: usize },
    Actor { iteration: usize },
    Script,
}

/// Why a command line selects nothing. A position counts tokens from the
/// name of the workload, which is token 0.
#[derive(Clone, Copy, Debug, PartialEq, Eq, Structural)]
pub enum UsageError {
    /// There is no token at all.
    MissingCommand,
    /// Token 0 names no workload.
    UnknownCommand,
    /// The token at `position` is no flag of the workload.
    UnknownFlag { position: usize },
    /// The flag at `position` was given before.
    Repeated { position: usize },
    /// The flag at `position` is the last token: its value is missing.
    MissingValue { position: usize },
    /// The token at `position` is the value of a flag and writes no count.
    BadNumber { position: usize },
}

/// The workload that a name selects, with the default of every parameter.
pub open spec fn command_of(name: Seq<char>) -> Option<Selection> {
    if name == "parallel-map"@ {
        Some(Selection::ParallelMap { base_size: 200000, expand_size: 1000 })
    } else if name == "ordered-set"@ {
        Some(Selection::OrderedSet { iteration: 20, insertion: 500000, deletion: 150000 })
    } else if name == "json-parse"@ {
        Some(Selection::JsonParse { iteration: 1000 })
    } else if name == "hash-set"@ {
        Some(Selection::HashSet { iteration: 30, insertion: 1000000, deletion: 150000 })
    } else if name == "skiplist"@ {
        Some(Selection::Skiplist { thread: 12, insertion: 200000, deletion: 50000 })
    } else if name == "actor"@ {
        Some(Selection::Actor { iteration: 500000 })
    } else if name == "script"@ {
        Some(Selection::Script)
    } else {
        None
    }
}

/// The parameter of a workload that a flag names, by its place among the
/// workload's parameters.
pub open spec fn slot_of(selection: Selection, flag: Seq<char>) -> Option<usize> {
    match selection {
        Selection::ParallelMap { .. } => if flag == "--base-size"@ || flag == "-b"@ {
            Some(0usize)
        } else if flag == "--expand-size"@ || flag == "-e"@ {
            Some(1usize)
        } else {
            None
        },
        Selection::OrderedSet { .. } | Selection::HashSet { .. } => if flag == "-t"@ || flag
            == "--iteration"@ {
            Some(0usize)
        } else if flag == "--insertion"@ || flag == "-i"@ {
            Some(1usize)
        } else if flag == "--deletion"@ || flag == "-d"@ {
            Some(2usize)
        } else {
            None
        },
        Selection::Skiplist { .. } => if flag == "-t"@ || flag == "--thread"@ {
            Some(0usize)
        } else if flag == "--insertion"@ || flag == "-i"@ {
            Some(1usize)
        } else if flag == "--deletion"@ || flag == "-d"@ {
            Some(2usize)
        } else {
            None
        },
        Selection::JsonParse { .. } | Selection::Actor { .. } => if flag == "-t"@ || flag
            == "--iteration"@ {
            Some(0usize)
        } else {
            None
        },
        Selection::Script => None,
    }
}

/// The selection with one parameter set anew. A place that the workload does
/// not have changes nothing.
pub open spec fn with_slot(selection: Selection, slot: usize, value: usize) -> Selection {
    match selection {
        Selection::ParallelMap { base_size, expand_size } => if slot == 0 {
            Selection::ParallelMap { base_size: value, expand_size }
        } else if slot == 1 {
            Selection::ParallelMap { base_size, expand_size: value }
        } else {
            selection
        },
        Selection::OrderedSet { iteration, insertion, deletion } => if slot == 0 {
            Selection::OrderedSet { iteration: value, insertion, deletion }
        } else if slot == 1 {
            Selection::OrderedSet { iteration, insertion: value, deletion }
        } else if slot == 2 {
            Selection::OrderedSet { iteration, insertion, deletion: value }
        } else {
            selection
        },
        Selection::JsonParse { iteration } => if slot == 0 {
            Selection::JsonParse { iteration: value }
        } else {
            selection
        },
        Selection::HashSet { iteration, insertion, deletion } => if slot == 0 {
            Selection::HashSet { iteration: value, insertion, deletion }
        } else if slot == 1 {
            Selection::HashSet { iteration, insertion: value, deletion }
        } else if slot == 2 {
            Selection::HashSet { iteration, insertion, deletion: value }
        } else {
            selection
        },
        Selection::Skiplist { thread, insertion, deletion } => if slot == 0 {
            Selection::Skiplist { thread: value, insertion, deletion }
        } else if slot == 1 {
            Selection::Skiplist { thread, insertion: value, deletion }
        } else if slot == 2 {
            Selection::Skiplist { thread, insertion, deletion: value }
        } else {
            selection
        },
        Selection::Actor { iteration } => if slot == 0 {
            Selection::Actor { iteration: value }
        } else {
            selection
        },
        Selection::Script => selection,
    }
}

/// What the flags from token `at` on make of a selection: they come in pairs
/// of a flag and its value, each flag at most once, and each value replaces
/// the parameter that its flag names. `seen` holds the places of the flags
/// before `at`.
pub open spec fn flags_of(
    selection: Selection,
    tokens: Seq<Seq<char>>,
    at: int,
    seen: Set<usize>,
) -> Result<Selection, UsageError>
    decreases tokens.len() - at,
{
    if at < 0 || at >= tokens.len() {
        Ok(selection)
    } else {
        match slot_of(selection, tokens[at]) {
            None => Err(UsageError::UnknownFlag { position: at as usize }),
            Some(slot) => if seen.contains(slot) {
                Err(UsageError::Repeated { position: at as usize })
            } else if at + 1 >= tokens.len() {
                Err(UsageError::MissingValue { position: at as usize })
            } else {
                match count_of(tokens[at + 1]) {
                    None => Err(UsageError::BadNumber { position: (at + 1) as usize }),
                    Some(value) => flags_of(
                        with_slot(selection, slot, value),
                        tokens,
                        at + 2,
                        seen.insert(slot),
                    ),
                }
            },
        }
    }
}

/// What a command line selects: token 0 names the workload, and the flags
/// after it replace the defaults of its parameters.
pub open spec fn selection_of(tokens: Seq<Seq<char>>) -> Result<Selection, UsageError> {
    if tokens.len() == 0 {
        Err(UsageError::MissingCommand)
    } else {
        match command_of(tokens[0]) {
            None => Err(UsageError::UnknownCommand),
            Some(selection) => flags_of(selection, tokens, 1, Set::empty()),
        }
    }
}

/// The characters of each token.
pub open spec fn texts(tokens: Seq<String>) -> Seq<Seq<char>> {
    tokens.map_values(|token: String| token@)
}

/// Finds the workload that a name selects.
pub fn command(name: &str) -> (selection: Option<Selection>)
    ensures
        selection == command_of(name@),
{
    if same_text(name, "parallel-map") {
        Some(Selection::ParallelMap { base_size: 200000, expand_size: 1000 })
    } else if same_text(name, "ordered-set") {
        Some(Selection::OrderedSet { iteration: 20, insertion: 500000, deletion: 150000 })
    } else if same_text(name, "json-parse") {
        Some(Selection::JsonParse { iteration: 1000 })
    } else if same_text(name, "hash-set") {
        Some(Selection::HashSet { iteration: 30, insertion: 1000000, deletion: 150000 })
    } else if same_text(name, "skiplist") {
        Some(Selection::Skiplist { thread: 12, insertion: 200000, deletion: 50000 })
    } else if same_text(name, "actor") {
        Some(Selection::Actor { iteration: 500000 })
    } else if same_text(name, "script") {
        Some(Selection::Script)
    } else {
        None
    }
}

/// Finds the parameter that a flag names.
pub fn slot(selection: &Selection, flag: &str) -> (place: Option<usize>)
    ensures
        place == slot_of(*selection, flag@),
{
    match selection {
        Selection::ParallelMap { .. } => {
            if same_text(flag, "--base-size") || same_text(flag, "-b") {
                Some(0)
            } else if same_text(flag, "--expand-size") || same_text(flag, "-e") {
                Some(1)
            } else {
                None
            }
        },
        Selection::OrderedSet { .. } | Selection::HashSet { .. } => {
            if same_text(flag, "-t") || same_text(flag, "--iteration") {
                Some(0)
            } else if same_text(flag, "--insertion") || same_text(flag, "-i") {
                Some(1)
            } else if same_text(flag, "--deletion") || same_text(flag, "-d") {
                Some(2)
            } else {
                None
            }
        },
        Selection::Skiplist { .. } => {
            if same_text(flag, "-t") || same_text(flag, "--thread") {
                Some(0)
            } else if same_text(flag, "--insertion") || same_text(flag, "-i") {
                Some(1)
            } else if same_text(flag, "--deletion") || same_text(flag, "-d") {
                Some(2)
            } else {
                None
            }
        },
        Selection::JsonParse { .. } | Selection::Actor { .. } => {
            if same_text(flag, "-t") || same_text(flag, "--iteration") {
                Some(0)
            } else {
                None
            }
        },
        Selection::Script => None,
    }
}

/// Sets one parameter of a selection anew.
pub fn set_slot(selection: Selection, place: usize, value: usize) -> (changed: Selection)
    ensures
        changed == with_slot(selection, place, value),
{
    match selection {
        Selection::ParallelMap { base_size, expand_size } => {
            if place == 0 {
                Selection::ParallelMap { base_size: value, expand_size }
            } else if place == 1 {
                Selection::ParallelMap { base_size, expand_size: value }
            } else {
                selection
            }
        },
        Selection::OrderedSet { iteration, insertion, deletion } => {
            if place == 0 {
                Selection::OrderedSet { iteration: value, insertion, deletion }
            } else if place == 1 {
                Selection::OrderedSet { iteration, insertion: value, deletion }
            } else if place == 2 {
                Selection::OrderedSet { iteration, insertion, deletion: value }
            } else {
                selection
            }
        },
        Selection::JsonParse { iteration } => {
            if place == 0 {
                Selection::JsonParse { iteration: value }
            } else {
                selection
            }
        },
        Selection::HashSet { iteration, insertion, deletion } => {
            if place == 0 {
                Selection::HashSet { iteration: value, insertion, deletion }
            } else if place == 1 {
                Selection::HashSet { iteration, insertion: value, deletion }
            } else if place == 2 {
                Selection::HashSet { iteration, insertion, deletion: value }
            } else {
                selection
            }
        },
        Selection::Skiplist { thread, insertion, deletion } => {
            if place == 0 {
                Selection::Skiplist { thread: value, insertion, deletion }
            } else if place == 1 {
                Selection::Skiplist { thread, insertion: value, deletion }
            } else if place == 2 {
                Selection::Skiplist { thread, insertion, deletion: value }
            } else {
                selection
            }
        },
        Selection::Actor { iteration } => {
            if place == 0 {
                Selection::Actor { iteration: value }
            } else {
                selection
            }
        },
        Selection::Script => selection,
    }
}

/// Resolves a command line, given as its tokens without the program's name,
/// into the one workload it selects, or says why it selects none.
pub fn resolve(tokens: &Vec<String>) -> (outcome: Result<Selection, UsageError>)
    ensures
        outcome == selection_of(texts(tokens@)),
{
    let ghost all = texts(tokens@);
    if tokens.len() == 0 {
        return Err(UsageError::MissingCommand);
    }
    assert(all[0] == tokens@[0]@);
    let mut selection = match command(tokens[0].as_str()) {
        Some(selection) => selection,
        None => {
            return Err(UsageError::UnknownCommand);
        },
    };
    let mut seen0 = false;
    let mut seen1 = false;
    let mut seen2 = false;
    let ghost mut seen: Set<usize> = Set::empty();
    let mut at: usize = 1;
    while at < tokens.len()
        invariant
            1 <= at,
            all == texts(tokens@),
            all.len() == tokens@.len(),
            seen0 == seen.contains(0),
            seen1 == seen.contains(1),
            seen2 == seen.contains(2),
            flags_of(selection, all, at as int, seen) == selection_of(all),
        decreases tokens.len() - at,
    {
        assert(all[at as int] == tokens@[at as int]@);
        let place = match slot(&selection, tokens[at].as_str()) {
            Some(place) => place,
            None => {
                return Err(UsageError::UnknownFlag { position: at });
            },
        };
        if (place == 0 && seen0) || (place == 1 && seen1) || (place == 2 && seen2) {
            return Err(UsageError::Repeated { position: at });
        }
        if at + 1 >= tokens.len() {
            return Err(UsageError::MissingValue { position: at });
        }
        assert(all[at + 1] == tokens@[at + 1]@);
        let value = match parse_count(tokens[at + 1].as_str()) {
            Some(value) => value,
            None => {
                return Err(UsageError::BadNumber { position: at + 1 });
            },
        };
        selection = set_slot(selection, place, value);
        if place == 0 {
            seen0 = true;
        } else if place == 1 {
            seen1 = true;
        } else {
            seen2 = true;
        }
        proof {
            seen = seen.insert(place);
        }
        at += 2;
    }
    Ok(selection)
}

} // verus!
