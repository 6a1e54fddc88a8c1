use iced_core::keyboard::key::{Code, Physical};
use iced_core::keyboard::Key as IcedKey;
use markright::widget::rich_editor::binding::{to_latin, Key, Named, PhysicalKey};

/// The library's Latin letter of a key press agrees with iced's
/// `Key::to_latin` on every letter and digit key and on other keys.
#[test]
fn latin_letters_agree_with_iced() {
    let codes = [
        (Code::KeyA, PhysicalKey::Letter('a')),
        (Code::KeyB, PhysicalKey::Letter('b')),
        (Code::KeyC, PhysicalKey::Letter('c')),
        (Code::KeyD, PhysicalKey::Letter('d')),
        (Code::KeyE, PhysicalKey::Letter('e')),
        (Code::KeyF, PhysicalKey::Letter('f')),
        (Code::KeyG, PhysicalKey::Letter('g')),
        (Code::KeyH, PhysicalKey::Letter('h')),
        (Code::KeyI, PhysicalKey::Letter('i')),
        (Code::KeyJ, PhysicalKey::Letter('j')),
        (Code::KeyK, PhysicalKey::Letter('k')),
        (Code::KeyL, PhysicalKey::Letter('l')),
        (Code::KeyM, PhysicalKey::Letter('m')),
        (Code::KeyN, PhysicalKey::Letter('n')),
        (Code::KeyO, PhysicalKey::Letter('o')),
        (Code::KeyP, PhysicalKey::Letter('p')),
        (Code::KeyQ, PhysicalKey::Letter('q')),
        (Code::KeyR, PhysicalKey::Letter('r')),
        (Code::KeyS, PhysicalKey::Letter('s')),
        (Code::KeyT, PhysicalKey::Letter('t')),
        (Code::KeyU, PhysicalKey::Letter('u')),
        (Code::KeyV, PhysicalKey::Letter('v')),
        (Code::KeyW, PhysicalKey::Letter('w')),
        (Code::KeyX, PhysicalKey::Letter('x')),
        (Code::KeyY, PhysicalKey::Letter('y')),
        (Code::KeyZ, PhysicalKey::Letter('z')),
        (Code::Digit0, PhysicalKey::Digit('0')),
        (Code::Digit1, PhysicalKey::Digit('1')),
        (Code::Digit2, PhysicalKey::Digit('2')),
        (Code::Digit3, PhysicalKey::Digit('3')),
        (Code::Digit4, PhysicalKey::Digit('4')),
        (Code::Digit5, PhysicalKey::Digit('5')),
        (Code::Digit6, PhysicalKey::Digit('6')),
        (Code::Digit7, PhysicalKey::Digit('7')),
        (Code::Digit8, PhysicalKey::Digit('8')),
        (Code::Digit9, PhysicalKey::Digit('9')),
        (Code::Semicolon, PhysicalKey::Other),
        (Code::Space, PhysicalKey::Other),
        (Code::Enter, PhysicalKey::Other),
        (Code::Numpad1, PhysicalKey::Other),
    ];
    let texts = ["a", "Z", "ж", "é", "ab", "", " ", "日", "\u{36f}", "\u{370}", "1"];
    for (code, physical) in codes {
        for text in texts {
            let ours = to_latin(&Key::Character(text.to_string()), physical);
            let theirs = IcedKey::Character(text.into()).to_latin(Physical::Code(code));
            assert_eq!(ours, theirs, "{text:?} on {code:?}");
        }
        let named = to_latin(&Key::Named(Named::Enter), physical);
        let iced_named = IcedKey::Named(iced_core::keyboard::key::Named::Enter).to_latin(Physical::Code(code));
        assert_eq!(named, iced_named);
    }
}
