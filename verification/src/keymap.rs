//! The pure mapping from a raw key press to a navigation intent.
//!
//! The mapping is total and stateless: it never consults the current view,
//! and every press outside the recognized table yields no intent.

use vstd::prelude::*;

verus! {

/// The named (non-character) keys the picker distinguishes. Every other
/// named key is `Other` and yields no intent.
#[derive(Debug, Clone, Copy, PartialEq, Eq, Structural)]
pub enum NamedKey {
    Escape,
    Tab,
    Other,
}

/// A pressed key: a named key, a character key with its text, or one the
/// windowing layer could not identify.
#[derive(Debug, Clone)]
pub enum Key {
    Named(NamedKey),
    Character(String),
    Unidentified,
}

/// The modifier state accompanying a key press.
#[derive(Debug, Clone, Copy, PartialEq, Eq, Structural)]
pub struct Modifiers {
    pub control: bool,
    pub shift: bool,
    pub alt: bool,
    pub logo: bool,
}

/// A navigation intent derived from a key press.
#[derive(Debug, Clone, Copy, PartialEq, Eq, Structural)]
pub enum Action {
    MoveDown,
    MoveUp,
    Back,
    Enter,
    FocusInput,
    Quit,
}

/// The whole action table: Escape is Back and Tab moves focus whatever the
/// modifiers; with control held, the letters j, k, h, l and q are down, up,
/// back, enter and quit; everything else yields no intent.
pub open spec fn action_of(key: Key, modifiers: Modifiers) -> Option<Action> {
    match key {
        Key::Named(NamedKey::Escape) => Some(Action::Back),
        Key::Named(NamedKey::Tab) => Some(Action::FocusInput),
        Key::Named(NamedKey::Other) => None,
        Key::Unidentified => None,
        Key::Character(c) => if modifiers.control {
            if c@ == seq!['j'] {
                Some(Action::MoveDown)
            } else if c@ == seq!['k'] {
                Some(Action::MoveUp)
            } else if c@ == seq!['h'] {
                Some(Action::Back)
            } else if c@ == seq!['l'] {
                Some(Action::Enter)
            } else if c@ == seq!['q'] {
                Some(Action::Quit)
            } else {
                None
            }
        } else {
            None
        },
    }
}

/// Returns whether the character key's text is the single character `c`.
fn is_char(text: &String, c: char) -> (r: bool)
    ensures
        r == (text@ == seq![c]),
{
    let s = text.as_str();
    if s.unicode_len() == 1 {
        let r = s.get_char(0) == c;
        proof {
            if r {
                assert(text@ =~= seq![c]);
            }
        }
        r
    } else {
        false
    }
}

/// Maps a key press to its intent, exactly as `action_of` states.
pub fn key_to_action(key: &Key, modifiers: Modifiers) -> (r: Option<Action>)
    ensures
        r == action_of(*key, modifiers),
{
    match key {
        Key::Named(NamedKey::Escape) => Some(Action::Back),
        Key::Named(NamedKey::Tab) => Some(Action::FocusInput),
        Key::Named(NamedKey::Other) => None,
        Key::Unidentified => None,
        Key::Character(c) => {
            if modifiers.control {
                if is_char(c, 'j') {
                    Some(Action::MoveDown)
                } else if is_char(c, 'k') {
                    Some(Action::MoveUp)
                } else if is_char(c, 'h') {
                    Some(Action::Back)
                } else if is_char(c, 'l') {
                    Some(Action::Enter)
                } else if is_char(c, 'q') {
                    Some(Action::Quit)
                } else {
                    None
                }
            } else {
                None
            }
        },
    }
}

/// Whether the press is the character `c` with control held.
pub open spec fn is_control_char(key: Key, modifiers: Modifiers, c: char) -> bool {
    modifiers.control && match key {
        Key::Character(t) => t@ == seq![c],
        _ => false,
    }
}

/// The mapping is total and closed: an intent comes only from the seven
/// listed inputs, and each intent comes exactly from its listed input.
pub proof fn lemma_action_table(key: Key, modifiers: Modifiers)
    ensures
        action_of(key, modifiers) == Some(Action::Back) <==> (key == Key::Named(NamedKey::Escape)
            || is_control_char(key, modifiers, 'h')),
        action_of(key, modifiers) == Some(Action::FocusInput) <==> key == Key::Named(NamedKey::Tab),
        action_of(key, modifiers) == Some(Action::MoveDown) <==> is_control_char(
            key,
            modifiers,
            'j',
        ),
        action_of(key, modifiers) == Some(Action::MoveUp) <==> is_control_char(key, modifiers, 'k'),
        action_of(key, modifiers) == Some(Action::Enter) <==> is_control_char(key, modifiers, 'l'),
        action_of(key, modifiers) == Some(Action::Quit) <==> is_control_char(key, modifiers, 'q'),
{
    assert(seq!['j'][0] == 'j' && seq!['k'][0] == 'k' && seq!['h'][0] == 'h' && seq!['l'][0] == 'l'
        && seq!['q'][0] == 'q');
}

} // verus!
