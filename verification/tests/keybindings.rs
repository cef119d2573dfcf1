use fox_reader::keybindings::{format_key_combination, KeyBinding, KeyBindingManager, Modifiers};

fn mods(control: bool, alt: bool, shift: bool, super_key: bool) -> Modifiers {
    Modifiers { control, alt, shift, super_key }
}

#[test]
fn ai_chat_shortcuts() {
    let m = KeyBindingManager::new();
    let all = m.get_all_bindings();
    assert_eq!(all.len(), 2);
    assert_eq!(all[0].key, "space");
    assert_eq!(all[0].modifiers, mods(true, false, false, false));
    assert_eq!(all[0].description, "Toggle AI recording (start/stop)");
    assert_eq!(all[1].action_name, "ai-chat.stop-audio");
    let chat = m.get_bindings_for_action_prefix("ai-chat.");
    assert_eq!(chat.len(), 2);
    let stop = m.get_bindings_for_action_prefix("ai-chat.stop");
    assert_eq!(stop.len(), 1);
    assert_eq!(stop[0].key, "Escape");
    assert!(m.get_bindings_for_action_prefix("reader.").is_empty());
}

#[test]
fn shortcut_text() {
    assert_eq!(format_key_combination("space", mods(true, false, false, false)), "Ctrl+space");
    assert_eq!(format_key_combination("Escape", mods(false, false, false, false)), "Escape");
    assert_eq!(format_key_combination("a", mods(true, true, true, true)), "Ctrl+Alt+Shift+Super+a");
    assert_eq!(format_key_combination("F1", mods(false, false, true, false)), "Shift+F1");
    let b = KeyBinding::new("x", mods(false, true, false, false), "d", "act");
    assert_eq!((b.key.as_str(), b.description.as_str(), b.action_name.as_str()), ("x", "d", "act"));
}
