//! The interactive picker that names a window's note: a filter line, the
//! matching note names, and an optional "New name..." row at the top.
//!
//! The terminal is drawn and read by the application; [`picker_frame`] says
//! what to draw and [`picker_step`] what a key press does.

use vstd::prelude::*;
use crate::text::{
    ascii_lowercase, ascii_lowercase_exec, chars_of, contains_exec, contains_sub, str_concat,
    str_views, string_of, trim, trim_chars, trim_str,
};

verus! {

/// What the picker returns: an existing note's name, or a new name (the
/// filter as typed).
pub enum Selection {
    Existing(String),
    NewName(String),
}

/// `title`/`header` are the popup border title and the instructions line above the
/// list. `allow_new` controls whether a "New name..." row is offered at the top of
/// the list (naming can create a new binding; goto can only jump to an existing one).
pub struct PickerOptions<'a> {
    pub title: &'a str,
    pub header: &'a str,
    pub allow_new: bool,
}

/// The picker's state: the filter typed so far and the highlighted row.
pub struct PickerState {
    pub filter: String,
    pub selected: usize,
}

/// Highest selectable list index: the filtered notes, plus one more for the
/// "New name..." row when `allow_new` is set. Saturates to 0 when the list is empty.
pub fn max_selectable_index(filtered_count: usize, allow_new: bool) -> (r: usize)
    ensures
        r == if filtered_count + (if allow_new { 1int } else { 0int }) >= 1 {
            filtered_count + (if allow_new { 1int } else { 0int }) - 1
        } else {
            0
        },
{
    if allow_new {
        filtered_count
    } else if filtered_count > 0 {
        filtered_count - 1
    } else {
        0
    }
}

impl PickerState {
    /// An empty filter with the first row highlighted.
    pub fn new() -> (r: PickerState)
        ensures
            r.filter@ == Seq::<char>::empty(),
            r.selected == 0,
    {
        PickerState { filter: String::new(), selected: 0 }
    }

    /// Keeps the highlighted row within `0..=max_index`.
    pub fn clamp_selection(&mut self, max_index: usize)
        ensures
            final(self).selected == if old(self).selected <= max_index {
                old(self).selected
            } else {
                max_index
            },
            final(self).filter == old(self).filter,
    {
        if self.selected > max_index {
            self.selected = max_index;
        }
    }
}

/// A name matches the filter when the trimmed filter is blank or occurs in
/// the name, both compared in ASCII lower case.
pub open spec fn name_matches(name: Seq<char>, filter: Seq<char>) -> bool {
    let needle = ascii_lowercase(trim(filter));
    needle.len() == 0 || contains_sub(ascii_lowercase(name), needle)
}

proof fn lemma_ascii_lowercase_idempotent(s: Seq<char>)
    ensures
        ascii_lowercase(ascii_lowercase(s)) == ascii_lowercase(s),
{
    assert forall|i: int| 0 <= i < s.len() implies #[trigger] ascii_lowercase(
        ascii_lowercase(s),
    )[i] == ascii_lowercase(s)[i] by {
        let c = s[i];
        if 'A' <= c && c <= 'Z' {
            assert(((c as nat) + 32) as char as nat == (c as nat) + 32);
        }
    }
    assert(ascii_lowercase(ascii_lowercase(s)) =~= ascii_lowercase(s));
}

proof fn lemma_ascii_lowercase_keeps_occurrence(t: Seq<char>, k: int, p: Seq<char>)
    requires
        crate::text::occurs_at(t, k, p),
    ensures
        crate::text::occurs_at(ascii_lowercase(t), k, ascii_lowercase(p)),
{
    assert(ascii_lowercase(t).subrange(k, k + p.len()) =~= ascii_lowercase(p)) by {
        assert forall|j: int| 0 <= j < p.len() implies #[trigger] ascii_lowercase(t).subrange(
            k,
            k + p.len(),
        )[j] == ascii_lowercase(p)[j] by {
            assert(t.subrange(k, k + p.len())[j] == p[j]);
        }
    }
}

/// Filtering ignores ASCII case and never drops a name that holds the
/// trimmed filter as it is: a name and its lower-case form are kept or
/// dropped together, a name containing the trimmed filter is kept, and a
/// blank filter keeps every name.
pub proof fn lemma_filter_ignores_case(name: Seq<char>, filter: Seq<char>)
    ensures
        name_matches(name, filter) == name_matches(ascii_lowercase(name), filter),
        contains_sub(name, trim(filter)) ==> name_matches(name, filter),
        trim(filter).len() == 0 ==> name_matches(name, filter),
{
    lemma_ascii_lowercase_idempotent(name);
    if contains_sub(name, trim(filter)) {
        let k = choose|k: int| crate::text::occurs_at(name, k, trim(filter));
        lemma_ascii_lowercase_keeps_occurrence(name, k, trim(filter));
    }
}

/// The names that match the filter, in order.
pub open spec fn filtered_of(names: Seq<Seq<char>>, filter: Seq<char>) -> Seq<Seq<char>> {
    names.filter(|n: Seq<char>| name_matches(n, filter))
}

/// The note names matching `filter` (case-insensitive substring; a blank
/// filter matches all), in their order.
pub fn filtered_names(note_names: &Vec<String>, filter: &str) -> (r: Vec<String>)
    ensures
        str_views(r@) == filtered_of(str_views(note_names@), filter@),
{
    let t = trim_str(filter);
    let needle = ascii_lowercase_exec(t.as_slice());
    let ghost nv = str_views(note_names@);
    let n = note_names.len();
    let mut r: Vec<String> = Vec::new();
    let mut i: usize = 0;
    proof {
        assert(nv.take(0).filter(|n: Seq<char>| name_matches(n, filter@)) =~= Seq::<
            Seq<char>,
        >::empty());
    }
    while i < n
        invariant
            n == note_names@.len() == nv.len(),
            nv == str_views(note_names@),
            needle@ == ascii_lowercase(trim(filter@)),
            0 <= i <= n,
            str_views(r@) == nv.take(i as int).filter(|n: Seq<char>| name_matches(n, filter@)),
        decreases n - i,
    {
        let ghost before = str_views(r@);
        proof {
            assert(nv.take(i + 1).drop_last() =~= nv.take(i as int));
            assert(nv.take(i + 1).last() == note_names@[i as int]@);
            reveal(Seq::filter);
        }
        let name = chars_of(note_names[i].as_str());
        let keep = needle.len() == 0 || contains_exec(
            ascii_lowercase_exec(name.as_slice()).as_slice(),
            needle.as_slice(),
        );
        if keep {
            let s = string_of(name.as_slice());
            r.push(s);
            proof {
                assert(str_views(r@) =~= before.push(s@));
            }
        }
        i = i + 1;
    }
    proof {
        assert(nv.take(n as int) =~= nv);
    }
    r
}

/// The label of the "New name..." row: the trimmed filter when there is one.
pub open spec fn new_name_label_of(filter: Seq<char>) -> Seq<char> {
    if trim(filter).len() == 0 {
        "New name..."@
    } else {
        "New name: "@ + trim(filter)
    }
}

pub fn new_name_label(filter: &str) -> (r: String)
    ensures
        r@ == new_name_label_of(filter@),
{
    let t = trim_str(filter);
    if t.len() == 0 {
        String::from_str("New name...")
    } else {
        string_of(str_concat("New name: ", t.as_slice()).as_slice())
    }
}

/// The bit of Shift in a key event's modifier bits.
pub const SHIFT_BITS: u8 = 1;

/// A typed character goes into the filter when no modifier, or only Shift,
/// is held (`modifiers` are the key event's modifier bits).
pub fn accepts_char(modifiers: u8) -> (b: bool)
    ensures
        b == (modifiers == 0 || modifiers == SHIFT_BITS),
{
    modifiers == 0 || modifiers == SHIFT_BITS
}

/// What the picker shows: the rows of its list (the "New name..." row first
/// when offered, then the matching names) and the highlighted row.
pub struct PickerFrame {
    pub items: Vec<String>,
    pub selected: usize,
}

/// The rows of the list.
pub open spec fn items_of(names: Seq<Seq<char>>, filter: Seq<char>, allow_new: bool) -> Seq<Seq<char>> {
    if allow_new {
        seq![new_name_label_of(filter)] + filtered_of(names, filter)
    } else {
        filtered_of(names, filter)
    }
}

/// Prepares a frame: keeps the highlighted row within the list for the
/// current filter and says what to draw.
pub fn picker_frame(state: &mut PickerState, note_names: &Vec<String>, allow_new: bool) -> (r:
    PickerFrame)
    ensures
        final(state).filter == old(state).filter,
        final(state).selected <= filtered_of(str_views(note_names@), old(state).filter@).len(),
        final(state).selected == if old(state).selected <= max_index_of(
            str_views(note_names@),
            old(state).filter@,
            allow_new,
        ) {
            old(state).selected as int
        } else {
            max_index_of(str_views(note_names@), old(state).filter@, allow_new)
        },
        r.selected == final(state).selected,
        final(state).selected <= max_index_of(str_views(note_names@), final(state).filter@, allow_new),
        str_views(r.items@) == items_of(str_views(note_names@), old(state).filter@, allow_new),
{
    let filtered = filtered_names(note_names, state.filter.as_str());
    let max_index = max_selectable_index(filtered.len(), allow_new);
    state.clamp_selection(max_index);
    let mut items: Vec<String> = Vec::new();
    if allow_new {
        items.push(new_name_label(state.filter.as_str()));
    }
    let ghost head = str_views(items@);
    let n = filtered.len();
    let mut i: usize = 0;
    while i < n
        invariant
            n == filtered@.len(),
            0 <= i <= n,
            str_views(items@) == head + str_views(filtered@).take(i as int),
        decreases n - i,
    {
        let ghost before = str_views(items@);
        let s = string_of(chars_of(filtered[i].as_str()).as_slice());
        items.push(s);
        proof {
            assert(str_views(items@) =~= before.push(s@));
            assert(str_views(filtered@).take(i + 1) =~= str_views(filtered@).take(i as int).push(
                s@,
            ));
        }
        i = i + 1;
    }
    proof {
        assert(str_views(filtered@).take(n as int) =~= str_views(filtered@));
        if allow_new {
            assert(head =~= seq![new_name_label_of(state.filter@)]);
        } else {
            assert(head =~= Seq::<Seq<char>>::empty());
        }
        assert(str_views(items@) =~= items_of(str_views(note_names@), state.filter@, allow_new));
    }
    PickerFrame { items, selected: state.selected }
}

/// The highest row the highlight may reach for this filter.
pub open spec fn max_index_of(names: Seq<Seq<char>>, filter: Seq<char>, allow_new: bool) -> int {
    let c = filtered_of(names, filter).len() + if allow_new {
        1int
    } else {
        0int
    };
    if c >= 1 {
        c - 1
    } else {
        0
    }
}

/// The keys the picker acts on.
pub enum PickerKey {
    Esc,
    Up,
    Down,
    Enter,
    Backspace,
    /// A typed character with the key event's modifier bits.
    Char(char, u8),
    Other,
}

/// What a key press leads to.
pub enum PickerOutcome {
    /// Keep going, with the state as it now is.
    Continue,
    /// Esc: give up without a selection.
    Cancel,
    Select(Selection),
}

/// Handles a key press, with the highlight first kept within the list for
/// the current filter (as the frame drawn shows it): Esc cancels; Up and Down
/// move the highlight within the list; Enter picks the highlighted row (the
/// "New name..." row gives the filter as typed); Backspace and a typed
/// character (with no modifier but Shift) edit the filter and go back to the
/// first row.
pub fn picker_step(state: &mut PickerState, key: PickerKey, note_names: &Vec<String>, allow_new: bool) -> (r:
    PickerOutcome)
    ensures
        ({
            let names = str_views(note_names@);
            let filtered = filtered_of(names, old(state).filter@);
            let max = max_index_of(names, old(state).filter@, allow_new);
            let sel = if old(state).selected <= max {
                old(state).selected as int
            } else {
                max
            };
            match key {
                PickerKey::Esc => r is Cancel && final(state).filter == old(state).filter
                    && final(state).selected == sel,
                PickerKey::Up => r is Continue && final(state).filter == old(state).filter
                    && final(state).selected == if sel > 0 {
                    sel - 1
                } else {
                    0int
                },
                PickerKey::Down => r is Continue && final(state).filter == old(state).filter
                    && final(state).selected == if sel + 1 <= max {
                    sel + 1
                } else {
                    sel
                },
                PickerKey::Enter => final(state).filter == old(state).filter
                    && final(state).selected == sel && if allow_new && sel == 0 {
                    r matches PickerOutcome::Select(Selection::NewName(n)) && n@
                        == old(state).filter@
                } else {
                    let idx = if allow_new {
                        sel - 1
                    } else {
                        sel
                    };
                    if idx < filtered.len() {
                        r matches PickerOutcome::Select(Selection::Existing(n)) && n@
                            == filtered[idx]
                    } else {
                        r is Continue
                    }
                },
                PickerKey::Backspace => r is Continue && final(state).selected == 0
                    && final(state).filter@ == if old(state).filter@.len() > 0 {
                    old(state).filter@.drop_last()
                } else {
                    old(state).filter@
                },
                PickerKey::Char(c, m) => r is Continue && if m == 0 || m == SHIFT_BITS {
                    final(state).selected == 0 && final(state).filter@ == old(state).filter@.push(c)
                } else {
                    final(state).filter == old(state).filter && final(state).selected == sel
                },
                PickerKey::Other => r is Continue && final(state).filter == old(state).filter
                    && final(state).selected == sel,
            }
        }),
        final(state).selected <= max_index_of(str_views(note_names@), final(state).filter@, allow_new),
{
    let filtered = filtered_names(note_names, state.filter.as_str());
    let max_index = max_selectable_index(filtered.len(), allow_new);
    state.clamp_selection(max_index);
    match key {
        PickerKey::Esc => PickerOutcome::Cancel,
        PickerKey::Up => {
            if state.selected > 0 {
                state.selected = state.selected - 1;
            }
            PickerOutcome::Continue
        },
        PickerKey::Down => {
            if state.selected < max_index {
                state.selected = state.selected + 1;
            }
            PickerOutcome::Continue
        },
        PickerKey::Enter => {
            if allow_new && state.selected == 0 {
                return PickerOutcome::Select(
                    Selection::NewName(string_of(chars_of(state.filter.as_str()).as_slice())),
                );
            }
            let idx = if allow_new {
                state.selected - 1
            } else {
                state.selected
            };
            if idx < filtered.len() {
                PickerOutcome::Select(
                    Selection::Existing(string_of(chars_of(filtered[idx].as_str()).as_slice())),
                )
            } else {
                PickerOutcome::Continue
            }
        },
        PickerKey::Backspace => {
            let mut v = chars_of(state.filter.as_str());
            if v.len() > 0 {
                let ghost before = v@;
                v.pop();
                proof {
                    assert(v@ =~= before.drop_last());
                }
            }
            state.filter = string_of(v.as_slice());
            state.selected = 0;
            PickerOutcome::Continue
        },
        PickerKey::Char(c, m) => {
            if accepts_char(m) {
                crate::text::push_char(&mut state.filter, c);
                state.selected = 0;
            }
            PickerOutcome::Continue
        },
        PickerKey::Other => PickerOutcome::Continue,
    }
}

} // verus!
