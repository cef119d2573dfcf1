//! The keyboard shortcuts of the application: which key and modifiers run
//! which action, and how a shortcut is written for the user.
use vstd::prelude::*;
use crate::chars::{has_prefix, join, starts_with};

verus! {

/// The modifier keys held with a key.
#[derive(Debug, Clone, Copy, PartialEq, Eq, Structural)]
pub struct Modifiers {
    pub control: bool,
    pub alt: bool,
    pub shift: bool,
    pub super_key: bool,
}

/// A shortcut: a key, by its name, with modifiers, the action it runs and
/// what it does.
#[derive(Debug)]
pub struct KeyBinding {
    pub key: String,
    pub modifiers: Modifiers,
    pub description: String,
    pub action_name: String,
}

/// A shortcut as key name, modifiers, description and action name.
pub open spec fn binding_view(b: KeyBinding) -> (Seq<char>, Modifiers, Seq<char>, Seq<char>) {
    (b.key@, b.modifiers, b.description@, b.action_name@)
}

/// Shortcuts as key names, modifiers, descriptions and action names.
pub open spec fn bindings_view(bs: Seq<KeyBinding>) -> Seq<(Seq<char>, Modifiers, Seq<char>, Seq<char>)> {
    bs.map_values(|b: KeyBinding| binding_view(b))
}

/// No modifier held.
pub open spec fn no_modifiers() -> Modifiers {
    Modifiers { control: false, alt: false, shift: false, super_key: false }
}

/// The shortcuts of the AI chat.
pub open spec fn ai_chat_bindings() -> Seq<(Seq<char>, Modifiers, Seq<char>, Seq<char>)> {
    seq![
        ("space"@, Modifiers { control: true, ..no_modifiers() }, "Toggle AI recording (start/stop)"@, "ai-chat.toggle-recording"@),
        ("Escape"@, no_modifiers(), "Stop AI audio playback"@, "ai-chat.stop-audio"@)
    ]
}

/// The shortcuts of `bs` whose action name starts with `prefix`, in order.
pub open spec fn with_action_prefix(
    bs: Seq<(Seq<char>, Modifiers, Seq<char>, Seq<char>)>,
    prefix: Seq<char>,
) -> Seq<(Seq<char>, Modifiers, Seq<char>, Seq<char>)>
    decreases bs.len(),
{
    if bs.len() == 0 {
        seq![]
    } else if has_prefix(bs.last().3, prefix) {
        with_action_prefix(bs.drop_last(), prefix).push(bs.last())
    } else {
        with_action_prefix(bs.drop_last(), prefix)
    }
}

/// The names of the modifiers held, in the order Ctrl, Alt, Shift, Super.
pub open spec fn modifier_names(m: Modifiers) -> Seq<Seq<char>> {
    let a: Seq<Seq<char>> = if m.control { seq!["Ctrl"@] } else { seq![] };
    let b: Seq<Seq<char>> = if m.alt { a.push("Alt"@) } else { a };
    let c: Seq<Seq<char>> = if m.shift { b.push("Shift"@) } else { b };
    if m.super_key { c.push("Super"@) } else { c }
}

/// A shortcut as it is shown: the modifiers, then the key, joined with `+`.
pub open spec fn key_combination(key_name: Seq<char>, m: Modifiers) -> Seq<char> {
    join(modifier_names(m).push(key_name), "+"@)
}

impl KeyBinding {
    /// A shortcut of the key named `key` with `modifiers`, running `action_name`.
    pub fn new(key: &str, modifiers: Modifiers, description: &str, action_name: &str) -> (r: Self)
        ensures
            binding_view(r) == (key@, modifiers, description@, action_name@),
    {
        KeyBinding {
            key: key.to_string(),
            modifiers,
            description: description.to_string(),
            action_name: action_name.to_string(),
        }
    }
}

/// The shortcuts of the application.
pub struct KeyBindingManager {
    bindings: Vec<KeyBinding>,
}

impl View for KeyBindingManager {
    type V = Seq<(Seq<char>, Modifiers, Seq<char>, Seq<char>)>;

    closed spec fn view(&self) -> Seq<(Seq<char>, Modifiers, Seq<char>, Seq<char>)> {
        bindings_view(self.bindings@)
    }
}

impl KeyBindingManager {
    /// The manager with the shortcuts of the AI chat.
    pub fn new() -> (r: Self)
        ensures
            r@ == ai_chat_bindings(),
    {
        let none = Modifiers { control: false, alt: false, shift: false, super_key: false };
        let ctrl = Modifiers { control: true, alt: false, shift: false, super_key: false };
        let mut bindings: Vec<KeyBinding> = Vec::new();
        bindings.push(KeyBinding::new("space", ctrl, "Toggle AI recording (start/stop)", "ai-chat.toggle-recording"));
        bindings.push(KeyBinding::new("Escape", none, "Stop AI audio playback", "ai-chat.stop-audio"));
        let r = KeyBindingManager { bindings };
        assert(r@ =~= ai_chat_bindings());
        r
    }

    /// All shortcuts.
    pub fn get_all_bindings(&self) -> (r: &[KeyBinding])
        ensures
            bindings_view(r@) == self@,
    {
        self.bindings.as_slice()
    }

    /// The shortcuts whose action name starts with `prefix`, in order.
    pub fn get_bindings_for_action_prefix(&self, prefix: &str) -> (r: Vec<&KeyBinding>)
        ensures
            r@.map_values(|b: &KeyBinding| binding_view(*b)) == with_action_prefix(self@, prefix@),
    {
        let ghost all = self@;
        let mut r: Vec<&KeyBinding> = Vec::new();
        let mut i: usize = 0;
        proof {
            assert(all.take(0) =~= Seq::<(Seq<char>, Modifiers, Seq<char>, Seq<char>)>::empty());
            assert(r@.map_values(|b: &KeyBinding| binding_view(*b)) =~= with_action_prefix(all.take(0), prefix@));
        }
        while i < self.bindings.len()
            invariant
                i <= self.bindings.len(),
                all == bindings_view(self.bindings@),
                r@.map_values(|b: &KeyBinding| binding_view(*b)) == with_action_prefix(all.take(i as int), prefix@),
            decreases self.bindings.len() - i,
        {
            let b = &self.bindings[i];
            proof {
                assert(all.take(i + 1).drop_last() =~= all.take(i as int));
                assert(all.take(i + 1).last() == binding_view(*b));
            }
            if starts_with(b.action_name.as_str(), prefix) {
                let ghost before = r@;
                r.push(b);
                proof {
                    assert(r@.map_values(|b: &KeyBinding| binding_view(*b)) =~= before.map_values(
                        |b: &KeyBinding| binding_view(*b),
                    ).push(binding_view(*b)));
                }
            }
            i = i + 1;
        }
        proof {
            assert(all.take(self.bindings.len() as int) =~= all);
        }
        r
    }
}

/// Appends `part` to the parts joined so far, with a `+` before it unless it is the first.
fn append_part(r: &mut String, any: &mut bool, part: &str, parts: Ghost<Seq<Seq<char>>>)
    requires
        old(r)@ == join(parts@, "+"@),
        *old(any) == (parts@.len() > 0),
    ensures
        final(r)@ == join(parts@.push(part@), "+"@),
        *final(any),
{
    proof {
        crate::sentences::lemma_join_push(parts@, part@, "+"@);
    }
    if *any {
        r.append("+");
    }
    r.append(part);
    *any = true;
}

/// A shortcut as it is shown (`key_combination`), such as `Ctrl+space`.
pub fn format_key_combination(key_name: &str, modifiers: Modifiers) -> (r: String)
    ensures
        r@ == key_combination(key_name@, modifiers),
{
    let mut r = String::new();
    let mut any = false;
    let ghost mut parts: Seq<Seq<char>> = seq![];
    if modifiers.control {
        append_part(&mut r, &mut any, "Ctrl", Ghost(parts));
        proof {
            parts = parts.push("Ctrl"@);
        }
    }
    if modifiers.alt {
        append_part(&mut r, &mut any, "Alt", Ghost(parts));
        proof {
            parts = parts.push("Alt"@);
        }
    }
    if modifiers.shift {
        append_part(&mut r, &mut any, "Shift", Ghost(parts));
        proof {
            parts = parts.push("Shift"@);
        }
    }
    if modifiers.super_key {
        append_part(&mut r, &mut any, "Super", Ghost(parts));
        proof {
            parts = parts.push("Super"@);
        }
    }
    assert(parts == modifier_names(modifiers));
    append_part(&mut r, &mut any, key_name, Ghost(parts));
    r
}

} // verus!
