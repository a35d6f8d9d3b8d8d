//! The navigation state machine: the two-level view model, the incremental
//! filter, and the transition table that drives the picker.
//!
//! The state is advanced one message at a time by `update`, which returns
//! the one external effect the caller must perform: ask the store for the
//! entry list, resolve a secret, deliver a value and terminate, or nothing.
//! The surrounding process runs the event loop and performs the effects;
//! everything decided here is pure.

use crate::entries::{match_pred, Entries};
use crate::keymap::{action_of, key_to_action, Action, Key, Modifiers};
use crate::order::{lemma_sort_lex, sort_lex, sorted_lex};
use crate::parse::{any_line_matches, fields_of, parse_kv, split_lines, ParsedPassword};
use crate::text::{is_substring, trim};
use vstd::arithmetic::div_mod::{
    lemma_add_mod_noop, lemma_mod_add_multiples_vanish, lemma_mod_multiples_basic,
    lemma_mod_self_0, lemma_small_mod,
};
use vstd::prelude::*;

verus! {

/// Which browsing level is active: the flat identifier list, or the field
/// list parsed out of one secret.
#[derive(Debug, Clone, Copy, PartialEq, Eq, Structural)]
pub enum ViewMode {
    PasswordList,
    KeyValueView,
}

impl Default for ViewMode {
    fn default() -> (r: Self)
        ensures
            r == ViewMode::PasswordList,
    {
        ViewMode::PasswordList
    }
}

/// A message delivered into the event loop: the completion of an external
/// request, or a user input.
pub enum Message {
    /// The store enumeration finished with this entry set.
    Loaded(Entries),
    /// The filter text changed to this value.
    ContentChange(String),
    /// The filter input was submitted.
    Submit,
    /// A secret's plaintext arrived from the resolver.
    PasswordLoaded(String),
    /// A raw key press arrived.
    KeyPressed(Key, Modifiers),
    /// A resolution failed with this message.
    Error(String),
}

/// The one external action a transition asks the caller to perform.
#[derive(Debug, Clone, PartialEq, Eq)]
pub enum Effect {
    /// Nothing to do.
    Stay,
    /// Move input focus to the filter field.
    FocusInput,
    /// Ask the store enumerator for the entry set; deliver it as `Loaded`.
    LoadEntries,
    /// Ask the resolver for this identifier's plaintext; deliver it as
    /// `PasswordLoaded`, or a failure as `Error`.
    Resolve(String),
    /// Hand this value to the sink and terminate.
    Deliver(String),
    /// Terminate normally.
    Exit,
    /// Report this error and terminate.
    Fail(String),
}

/// The selection index one step down, wrapping at the end of the list.
pub open spec fn wrap_down(i: int, n: int) -> int {
    (i + 1) % n
}

/// The selection index one step up, wrapping at the start of the list.
pub open spec fn wrap_up(i: int, n: int) -> int {
    (i + n - 1) % n
}

/// The navigation state: the active view, the selection, the filter text
/// and the entry set under view.
pub struct AppState {
    pub mode: ViewMode,
    pub index: usize,
    pub loading: bool,
    pub content: String,
    pub entries: Entries,
}

impl AppState {
    /// The filtered list the user navigates: the keys containing the
    /// filter text, sorted lexicographically.
    pub open spec fn filtered(self) -> Seq<Seq<char>> {
        sort_lex(self.entries.key_seq().filter(match_pred(self.content@)))
    }

    /// Well-formed: the entry set's keys are unique, and the selection
    /// index is inside the filtered list, or zero when that list is empty.
    pub open spec fn wf(self) -> bool {
        &&& self.entries.wf()
        &&& if self.filtered().len() == 0 {
            self.index == 0
        } else {
            self.index < self.filtered().len()
        }
    }

    /// The filtered list is exactly the set of entry keys that contain the
    /// filter text as a substring, in sorted order — for every filter
    /// text, including the empty one, which keeps every key.
    pub proof fn lemma_filtered(self)
        requires
            self.entries.wf(),
        ensures
            sorted_lex(self.filtered()),
            forall|k: Seq<char>| #[trigger] self.filtered().contains(k) <==> (
            self.entries@.dom().contains(k) && is_substring(k, self.content@)),
    {
        let keys = self.entries.key_seq();
        let pred = match_pred(self.content@);
        let filt = keys.filter(pred);
        lemma_sort_lex(filt);
        lemma_filter_elements(keys, pred);
        self.entries.lemma_view();
        keys.filter_lemma(pred);
        assert forall|k: Seq<char>| #[trigger] self.filtered().contains(k) implies (
        self.entries@.dom().contains(k) && is_substring(k, self.content@)) by {
            assert(filt.contains(k));
        }
        assert forall|k: Seq<char>|
            self.entries@.dom().contains(k) && is_substring(k, self.content@) implies #[trigger] self.filtered().contains(
            k,
        ) by {
            assert(keys.contains(k));
            let i = choose|i: int| 0 <= i < keys.len() && keys[i] == k;
            assert(pred(keys[i]));
            assert(filt.contains(k));
        }
    }
}

/// Everything the filtered sequence holds comes from the underlying
/// sequence and satisfies the predicate.
proof fn lemma_filter_elements(s: Seq<Seq<char>>, pred: spec_fn(Seq<char>) -> bool)
    ensures
        forall|k: Seq<char>| #[trigger] s.filter(pred).contains(k) ==> s.contains(k) && pred(k),
    decreases s.len(),
{
    reveal(Seq::filter);
    if s.len() > 0 {
        let front = s.drop_last();
        lemma_filter_elements(front, pred);
        assert forall|k: Seq<char>| #[trigger] s.filter(pred).contains(k) implies s.contains(k)
            && pred(k) by {
            if k == s.last() && pred(s.last()) {
                assert(s[s.len() - 1] == k);
            } else {
                let out = s.filter(pred);
                let j = choose|j: int| 0 <= j < out.len() && out[j] == k;
                if pred(s.last()) {
                    assert(out == front.filter(pred).push(s.last()));
                    assert(front.filter(pred)[j] == k);
                } else {
                    assert(out == front.filter(pred));
                }
                assert(front.filter(pred).contains(k));
                let m = choose|m: int| 0 <= m < front.len() && front[m] == k;
                assert(s[m] == k);
            }
        }
    }
}

/// The transition an intent makes: what the next state is and which effect
/// the caller must perform, for every intent and every starting state.
pub open spec fn action_step(pre: AppState, action: Action, post: AppState, eff: Effect) -> bool {
    let n = pre.filtered().len() as int;
    match action {
        Action::MoveDown => {
            &&& eff == Effect::Stay
            &&& if n > 0 {
                only_index_changed(pre, post) && post.index as int == wrap_down(pre.index as int, n)
            } else {
                post == pre
            }
        },
        Action::MoveUp => {
            &&& eff == Effect::Stay
            &&& if n > 0 {
                only_index_changed(pre, post) && post.index as int == wrap_up(pre.index as int, n)
            } else {
                post == pre
            }
        },
        Action::Enter => {
            &&& post == pre
            &&& if pre.index < pre.filtered().len() {
                let key = pre.filtered()[pre.index as int];
                match pre.mode {
                    ViewMode::PasswordList => eff matches Effect::Resolve(name) && name@
                        == pre.entries@[key],
                    ViewMode::KeyValueView => eff matches Effect::Deliver(value) && value@
                        == pre.entries@[key],
                }
            } else {
                eff == Effect::Stay
            }
        },
        Action::Back => match pre.mode {
            ViewMode::KeyValueView => {
                &&& post.mode == ViewMode::PasswordList
                &&& post.index == 0
                &&& post.content@ == Seq::<char>::empty()
                &&& post.entries == pre.entries
                &&& post.loading == pre.loading
                &&& eff == Effect::LoadEntries
            },
            ViewMode::PasswordList => post == pre && eff == Effect::Exit,
        },
        Action::FocusInput => post == pre && eff == Effect::FocusInput,
        Action::Quit => post == pre && eff == Effect::Exit,
    }
}

/// The two states agree on everything but the selection index.
pub open spec fn only_index_changed(pre: AppState, post: AppState) -> bool {
    &&& post.mode == pre.mode
    &&& post.loading == pre.loading
    &&& post.content == pre.content
    &&& post.entries == pre.entries
}

/// The transition a message makes, for every message and every starting
/// state: the whole table the picker follows.
pub open spec fn step(pre: AppState, msg: Message, post: AppState, eff: Effect) -> bool {
    match msg {
        Message::Loaded(e) => {
            &&& post.mode == ViewMode::PasswordList
            &&& post.entries == e
            &&& post.index == 0
            &&& post.loading == false
            &&& post.content@ == Seq::<char>::empty()
            &&& eff == Effect::FocusInput
        },
        Message::ContentChange(s) => {
            &&& post.mode == pre.mode
            &&& post.entries == pre.entries
            &&& post.loading == pre.loading
            &&& post.content == s
            &&& post.index == 0
            &&& eff == Effect::Stay
        },
        Message::Submit => action_step(pre, Action::Enter, post, eff),
        Message::PasswordLoaded(p) => {
            if any_line_matches(split_lines(p@)) {
                &&& post.mode == ViewMode::KeyValueView
                &&& post.entries@ == fields_of(split_lines(p@))
                &&& post.entries.wf()
                &&& post.index == 0
                &&& post.content@ == Seq::<char>::empty()
                &&& post.loading == pre.loading
                &&& eff == Effect::FocusInput
            } else {
                &&& post == pre
                &&& eff matches Effect::Deliver(value) && value@ == trim(p@)
            }
        },
        Message::KeyPressed(key, modifiers) => match action_of(key, modifiers) {
            Some(action) => action_step(pre, action, post, eff),
            None => post == pre && eff == Effect::Stay,
        },
        Message::Error(e) => {
            &&& post == pre
            &&& eff matches Effect::Fail(report) && report@ == e@
        },
    }
}

impl AppState {
    /// The window title.
    pub fn title(&self) -> (r: String)
        ensures
            r@ == "pass-rust"@,
    {
        String::from_str("pass-rust")
    }

    /// The initial state: an empty password list, still loading, together
    /// with the request for the first enumeration.
    pub fn new() -> (r: (AppState, Effect))
        ensures
            r.0.wf(),
            r.0.mode == ViewMode::PasswordList,
            r.0.index == 0,
            r.0.loading == true,
            r.0.content@ == Seq::<char>::empty(),
            r.0.entries@ == Map::<Seq<char>, Seq<char>>::empty(),
            r.1 == Effect::LoadEntries,
    {
        let state = AppState {
            mode: ViewMode::PasswordList,
            index: 0,
            loading: true,
            content: String::new(),
            entries: Entries::new(),
        };
        proof {
            let pred = match_pred(state.content@);
            assert(state.entries.key_seq().filter(pred) =~= Seq::<Seq<char>>::empty()) by {
                reveal(Seq::filter);
            }
            lemma_sort_lex(state.entries.key_seq().filter(pred));
        }
        (state, Effect::LoadEntries)
    }

    /// The keys of the current entry set that contain the filter text,
    /// sorted: the list the user sees and navigates.
    pub fn filtered_keys(&self) -> (r: Vec<String>)
        ensures
            r@.map_values(|s: String| s@) == self.filtered(),
    {
        self.entries.matching_keys(self.content.as_str())
    }

    /// The currently selected key, when the filtered list is non-empty.
    pub fn selected_key(&self) -> (r: Option<String>)
        ensures
            match r {
                Some(k) => self.index < self.filtered().len() && k@ == self.filtered()[self.index as int],
                None => self.index >= self.filtered().len(),
            },
    {
        let keys = self.filtered_keys();
        if self.index < keys.len() {
            let k = keys[self.index].clone();
            proof {
                assert(keys@.map_values(|s: String| s@)[self.index as int] == keys@[self.index as int]@);
            }
            Some(k)
        } else {
            None
        }
    }

    /// Applies one intent, returning the effect to perform.
    pub fn handle_action(&mut self, action: Action) -> (eff: Effect)
        requires
            old(self).wf(),
        ensures
            final(self).wf(),
            action_step(*old(self), action, *final(self), eff),
    {
        let keys = self.filtered_keys();
        let len = keys.len();
        proof {
            assert(len == old(self).filtered().len());
        }
        match action {
            Action::MoveDown => {
                if len > 0 {
                    self.index = (self.index + 1) % len;
                }
                Effect::Stay
            },
            Action::MoveUp => {
                if len > 0 {
                    let ghost i = self.index as int;
                    let ghost n = len as int;
                    if self.index == 0 {
                        self.index = len - 1;
                        proof {
                            lemma_mod_self_0(n);
                            lemma_mod_add_multiples_vanish(n - 1, n);
                            lemma_small_mod((n - 1) as nat, n as nat);
                        }
                    } else {
                        self.index = self.index - 1;
                        proof {
                            lemma_mod_add_multiples_vanish(i - 1, n);
                            lemma_small_mod((i - 1) as nat, n as nat);
                        }
                    }
                }
                Effect::Stay
            },
            Action::Enter => {
                match self.selected_key() {
                    None => Effect::Stay,
                    Some(key) => {
                        proof {
                            self.lemma_filtered();
                            assert(self.filtered().contains(key@)) by {
                                assert(self.filtered()[self.index as int] == key@);
                            }
                        }
                        let payload = match self.entries.get(&key) {
                            Some(v) => v.clone(),
                            None => {
                                proof {
                                    assert(false);
                                }
                                key
                            },
                        };
                        match self.mode {
                            ViewMode::PasswordList => Effect::Resolve(payload),
                            ViewMode::KeyValueView => Effect::Deliver(payload),
                        }
                    },
                }
            },
            Action::Back => {
                match self.mode {
                    ViewMode::KeyValueView => {
                        self.mode = ViewMode::PasswordList;
                        self.content = String::new();
                        self.index = 0;
                        Effect::LoadEntries
                    },
                    ViewMode::PasswordList => Effect::Exit,
                }
            },
            Action::FocusInput => Effect::FocusInput,
            Action::Quit => Effect::Exit,
        }
    }

    /// Applies one message through the transition table, returning the
    /// effect to perform.
    pub fn update(&mut self, message: Message) -> (eff: Effect)
        requires
            old(self).wf(),
            message matches Message::Loaded(e) ==> e.wf(),
        ensures
            final(self).wf(),
            step(*old(self), message, *final(self), eff),
    {
        match message {
            Message::Loaded(entries) => {
                self.mode = ViewMode::PasswordList;
                self.entries = entries;
                self.index = 0;
                self.loading = false;
                self.content = String::new();
                Effect::FocusInput
            },
            Message::ContentChange(value) => {
                self.content = value;
                self.index = 0;
                Effect::Stay
            },
            Message::Submit => self.handle_action(Action::Enter),
            Message::PasswordLoaded(password) => {
                match parse_kv(password.as_str()) {
                    ParsedPassword::KeyValue(map) => {
                        self.index = 0;
                        self.entries = map;
                        self.content = String::new();
                        self.mode = ViewMode::KeyValueView;
                        Effect::FocusInput
                    },
                    ParsedPassword::Raw(value) => Effect::Deliver(value),
                }
            },
            Message::KeyPressed(key, modifiers) => {
                match key_to_action(&key, modifiers) {
                    Some(action) => self.handle_action(action),
                    None => Effect::Stay,
                }
            },
            Message::Error(e) => Effect::Fail(e),
        }
    }
}

/// Starting anywhere in a non-empty list, one step down followed by one
/// step up returns to the start, and so does one step up followed by one
/// step down.
pub proof fn lemma_wrap_inverse(i: int, n: int)
    requires
        0 <= i < n,
    ensures
        wrap_up(wrap_down(i, n), n) == i,
        wrap_down(wrap_up(i, n), n) == i,
{
    lemma_mod_self_0(n);
    if i < n - 1 {
        lemma_small_mod((i + 1) as nat, n as nat);
    }
    lemma_mod_add_multiples_vanish(i, n);
    lemma_small_mod(i as nat, n as nat);
    if i == 0 {
        lemma_mod_add_multiples_vanish(n - 1, n);
        lemma_small_mod((n - 1) as nat, n as nat);
    } else {
        lemma_mod_add_multiples_vanish(i - 1, n);
        lemma_small_mod((i - 1) as nat, n as nat);
    }
}

/// The selection index after `k` consecutive steps down from `i` in a list
/// of length `n`.
pub open spec fn wrap_down_iter(i: int, n: int, k: nat) -> int
    decreases k,
{
    if k == 0 {
        i
    } else {
        wrap_down(wrap_down_iter(i, n, (k - 1) as nat), n)
    }
}

/// On a non-empty filtered list, one step down followed by one step up is
/// the identity on the whole state: the selection returns to where it
/// started and nothing else changes.
pub proof fn lemma_move_round_trip(
    s0: AppState,
    s1: AppState,
    s2: AppState,
    e1: Effect,
    e2: Effect,
)
    requires
        s0.wf(),
        s0.filtered().len() > 0,
        action_step(s0, Action::MoveDown, s1, e1),
        action_step(s1, Action::MoveUp, s2, e2),
    ensures
        s2.index == s0.index,
        only_index_changed(s0, s2),
{
    let n = s0.filtered().len() as int;
    assert(s1.filtered() == s0.filtered());
    lemma_wrap_inverse(s0.index as int, n);
}

/// Stepping down `k` times lands on `(i + k) % n`.
proof fn lemma_wrap_down_iter(i: int, n: int, k: nat)
    requires
        0 <= i < n,
    ensures
        wrap_down_iter(i, n, k) == (i + k) % n,
    decreases k,
{
    if k == 0 {
        lemma_small_mod(i as nat, n as nat);
    } else {
        lemma_wrap_down_iter(i, n, (k - 1) as nat);
        if n == 1 {
            lemma_mod_self_0(1);
            lemma_mod_multiples_basic(i + k, 1);
            lemma_mod_multiples_basic(i + k - 1, 1);
        } else {
            lemma_small_mod(1 as nat, n as nat);
            lemma_add_mod_noop(i + k - 1, 1, n);
        }
    }
}

/// Starting at any index of a non-empty filtered list, as many consecutive
/// steps down as the list has elements return to the starting index.
pub proof fn lemma_wrap_cycle(i: int, n: int)
    requires
        0 <= i < n,
    ensures
        wrap_down_iter(i, n, n as nat) == i,
{
    lemma_wrap_down_iter(i, n, n as nat);
    lemma_mod_add_multiples_vanish(i, n);
    lemma_small_mod(i as nat, n as nat);
}

} // verus!
