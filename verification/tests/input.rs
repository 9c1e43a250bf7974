use kwark::input::parse::{parse_chord, ParseError};
use kwark::input::state::InputState;
use kwark::input::tree::{InputTree, Step};
use kwark::input::{Chord, Key, MediaKey, Mods};

fn mods(bits: u8) -> Mods {
    Mods { bits }
}

#[test]
fn parses_single_key() {
    assert_eq!(
        parse_chord("d").unwrap(),
        Chord::new(Key::Char('d'), Mods::none())
    );
}

#[test]
fn parses_modifiers() {
    assert_eq!(
        parse_chord("ctrl-alt-d").unwrap(),
        Chord::new(Key::Char('d'), mods(Mods::CONTROL_BITS | Mods::ALT_BITS))
    );
}

#[test]
fn parses_named_key() {
    assert_eq!(
        parse_chord("ctrl-alt-space").unwrap(),
        Chord::new(Key::Char(' '), mods(Mods::CONTROL_BITS | Mods::ALT_BITS))
    );
}

#[test]
fn parses_trailing_hyphen_as_key() {
    assert_eq!(
        parse_chord("ctrl-alt--").unwrap(),
        Chord::new(Key::Char('-'), mods(Mods::CONTROL_BITS | Mods::ALT_BITS))
    );
}

#[test]
fn parses_bare_hyphen() {
    assert_eq!(
        parse_chord("-").unwrap(),
        Chord::new(Key::Char('-'), Mods::none())
    );
}

#[test]
fn normalizes_capital_forms() {
    let expected = Chord::new(Key::Char('a'), mods(Mods::SHIFT_BITS));
    assert_eq!(parse_chord("shift-a").unwrap(), expected);
    assert_eq!(parse_chord("A").unwrap(), expected);
    assert_eq!(parse_chord("shift-A").unwrap(), expected);
}

#[test]
fn parses_function_keys() {
    assert_eq!(
        parse_chord("f12").unwrap(),
        Chord::new(Key::F(12), Mods::none())
    );
}

#[test]
fn rejects_unknown_modifier() {
    assert!(matches!(
        parse_chord("nope-d"),
        Err(ParseError::UnknownModifier(_))
    ));
}

#[test]
fn rejects_unknown_key() {
    assert!(matches!(
        parse_chord("ctrl-nope"),
        Err(ParseError::UnknownKey(_))
    ));
}

#[test]
fn rejects_empty() {
    assert!(matches!(parse_chord(""), Err(ParseError::Empty)));
}

#[test]
fn function_key_numbers_must_fit_a_byte() {
    assert_eq!(parse_chord("f+5").unwrap(), Chord::new(Key::F(5), Mods::none()));
    assert!(matches!(parse_chord("f256"), Err(ParseError::UnknownKey(ref k)) if k == "f256"));
    assert!(matches!(parse_chord("f"), Ok(_)));
}

#[test]
fn first_unknown_modifier_is_reported() {
    assert!(matches!(parse_chord("x-y-d"), Err(ParseError::UnknownModifier(ref m)) if m == "x"));
    assert!(matches!(parse_chord("ctrl--alt-d"), Ok(_)));
}

#[test]
fn parse_error_messages() {
    assert_eq!(ParseError::Empty.message(), "empty chord string");
    assert_eq!(ParseError::UnknownKey("a\"b".to_string()).message(), "unknown key \"a\\\"b\"");
}

#[test]
fn chords_are_written_with_modifiers_first() {
    let c = parse_chord("alt-ctrl-shift-f3").unwrap();
    assert_eq!(c.describe(), "ctrl-alt-shift-f3");
    assert_eq!(Chord::new(Key::Char(' '), Mods::none()).describe(), "space");
    assert_eq!(Chord::new(Key::Media(MediaKey::PlayPause), Mods::none()).describe(), "Media(PlayPause)");
}

fn chords(keys: &[&str]) -> Vec<Chord> {
    keys.iter().map(|k| parse_chord(k).unwrap()).collect()
}

#[test]
fn registered_sequence_completes_after_its_chords() {
    let mut tree: InputTree<u32, u32> = InputTree::new();
    tree.register(&chords(&["g", "g"]), "top".to_string(), 7);
    let g = parse_chord("g").unwrap();
    assert!(matches!(tree.step(g), Step::Step));
    match tree.step(g) {
        Step::Complete(cs) => {
            assert_eq!(cs, chords(&["g", "g"]));
            assert_eq!(tree.event(&cs), Some(&7));
        }
        _ => panic!("expected the binding to complete"),
    }
}

#[test]
fn unknown_chord_fails_or_goes_to_the_backup() {
    let mut tree: InputTree<u32, u32> = InputTree::new();
    tree.register(&chords(&["a"]), "a".to_string(), 1);
    let z = parse_chord("z").unwrap();
    assert!(matches!(tree.step(z), Step::Failed));
    tree.set_backup(9, "insert".to_string());
    assert!(matches!(tree.step(z), Step::Backup(ref cs) if cs.len() == 1));
    assert_eq!(tree.backup(), Some(&9));
}

#[test]
fn registering_again_replaces_the_leaf() {
    let mut tree: InputTree<u32, u32> = InputTree::new();
    tree.register(&chords(&["a"]), "first".to_string(), 1);
    tree.register(&chords(&["a"]), "second".to_string(), 2);
    assert_eq!(tree.event(&chords(&["a"])), Some(&2));
    assert_eq!(tree.find(&chords(&["a"])).unwrap().desc(), "second");
}

#[test]
fn describe_names_a_prefix_node() {
    let mut tree: InputTree<u32, u32> = InputTree::new();
    tree.bind(&["space", "f"], "find".to_string(), 3).unwrap();
    tree.desc(&["space"], "leader".to_string()).unwrap();
    let node = tree.find(&chords(&["space"])).unwrap();
    assert_eq!(node.desc(), "leader");
    assert_eq!(node.children().unwrap().len(), 1);
    assert_eq!(tree.event(&chords(&["space", "f"])), Some(&3));
    assert!(tree.bind(&["nope-x"], "bad".to_string(), 4).is_err());
}

#[test]
fn input_state_routes_chords_to_the_current_mode() {
    let mut state: InputState<u32, u32> = InputState::new("normal".to_string());
    state.tree("normal").register(&chords(&["i"]), "insert mode".to_string(), 1);
    state.tree("insert").register(&chords(&["esc"]), "normal mode".to_string(), 2);
    let i = parse_chord("i").unwrap();
    assert!(matches!(state.step(i), Step::Complete(_)));
    state.set_mode("insert".to_string());
    assert_eq!(state.mode(), "insert");
    assert!(matches!(state.step(i), Step::Failed));
    assert!(!state.is_active());
    let layer = state.get_layer();
    assert_eq!(layer.len(), 1);
    assert_eq!(layer[0].1, "normal mode");
}

#[test]
fn written_chords_parse_back() {
    let cases = vec![
        Chord::new(Key::Char('-'), mods(Mods::CONTROL_BITS)),
        Chord::new(Key::Char('-'), Mods::none()),
        Chord::new(Key::Char(' '), mods(Mods::ALT_BITS)),
        Chord::new(Key::Char('d'), mods(Mods::CONTROL_BITS | Mods::HYPER_BITS | Mods::META_BITS)),
        Chord::new(Key::F(12), mods(Mods::SHIFT_BITS | Mods::SUPER_BITS)),
        Chord::new(Key::F(255), Mods::none()),
        Chord::new(Key::Tab, mods(63)),
        Chord::new(Key::PageDown, Mods::none()),
        Chord::new(Key::Char('D'), Mods::none()),
    ];
    assert_eq!(cases[0].describe(), "ctrl--");
    assert_eq!(cases[2].describe(), "alt-space");
    for c in cases {
        assert_eq!(parse_chord(&c.describe()), Ok(c));
    }
}

#[test]
fn a_mode_without_a_tree_fails_every_chord() {
    let mut state: InputState<u32, u32> = InputState::new("normal".to_string());
    state.set_mode("visual".to_string());
    assert!(matches!(state.step(parse_chord("x").unwrap()), Step::Failed));
    assert!(!state.is_active());
}
