use persistent_string::{
    CowPersistentString, DeltaPersistentString, LongBufferPersistentString, PersistentString,
    RopePersistentString, VersionSwitchError,
};

/// Multi-byte characters: lengths are in bytes, indices in characters.
fn multibyte_text<S: PersistentString>() {
    let mut string = S::new();
    string.push_str("añ日");
    assert_eq!(string.len(), 6);
    string.push('😀');
    assert_eq!(string.len(), 10);
    assert_eq!(string.snapshot(), "añ日😀");
    let full = string.version();

    string.insert(2, 'é');
    assert_eq!(string.snapshot(), "añé日😀");
    string.insert_str(1, "ßü");
    assert_eq!(string.snapshot(), "aßüñé日😀");
    assert_eq!(string.remove(4), 'é');
    assert_eq!(string.snapshot(), "aßüñ日😀");
    assert_eq!(string.remove(0), 'a');
    assert_eq!(string.snapshot(), "ßüñ日😀");
    string.retain(|c| c != 'ü' && c != '日');
    assert_eq!(string.snapshot(), "ßñ😀");
    assert_eq!(string.len(), 8);
    assert_eq!(string.pop(), Some('😀'));
    assert_eq!(string.pop(), Some('ñ'));
    assert_eq!(string.snapshot(), "ß");

    string.switch_version(full);
    string.repeat(2);
    assert_eq!(string.snapshot(), "añ日😀añ日😀");
    assert_eq!(string.len(), 20);
    assert_eq!(string.remove(5), 'ñ');
    assert_eq!(string.snapshot(), "añ日😀a日😀");
}

/// Pushing then popping restores the text, for every character width.
fn push_then_pop<S: PersistentString>() {
    let mut string = S::new();
    string.push_str("base");
    for character in ['x', 'é', '日', '😀'] {
        let before = string.snapshot().into_owned();
        string.push(character);
        assert_eq!(string.pop(), Some(character));
        assert_eq!(string.snapshot(), before.as_str());
    }
}

/// Popping the empty text gives nothing and keeps the text empty.
fn pop_empty<S: PersistentString>() {
    let mut string = S::new();
    assert_eq!(string.pop(), None);
    assert_eq!(string.snapshot(), "");
    assert!(string.is_empty());
    string.push('a');
    assert_eq!(string.pop(), Some('a'));
    assert_eq!(string.pop(), None);
    assert_eq!(string.snapshot(), "");
}

/// Version handles, switching and failures to switch.
fn switching<S: PersistentString>() {
    let mut string = S::new();
    assert_eq!(string.version(), 0);
    assert_eq!(string.latest_version(), 0);
    string.push_str("ab");
    string.push_str("cd");
    assert_eq!(string.version(), 2);
    assert_eq!(string.latest_version(), 2);
    assert_eq!(string.try_switch_version(3).unwrap_err(), VersionSwitchError::InvalidVersion(3));
    assert_eq!(string.version(), 2);
    assert!(string.try_switch_version(1).is_ok());
    assert_eq!(string.snapshot(), "ab");
    assert_eq!(string.latest_version(), 2);
    string.push('z');
    assert_eq!(string.version(), 3);
    assert_eq!(string.latest_version(), 3);
    assert_eq!(string.snapshot(), "abz");
    string.switch_version(2);
    assert_eq!(string.snapshot(), "abcd");
    string.switch_version(1);
    assert_eq!(string.snapshot(), "ab");
}

/// Operations that keep the text still allocate a new version.
fn identity_operations<S: PersistentString>() {
    let mut string = S::new();
    string.push_str("héllo");
    let start = string.version();
    string.repeat(1);
    assert_eq!(string.snapshot(), "héllo");
    assert_ne!(string.version(), start);
    let after_repeat = string.version();
    string.insert_str(3, "");
    assert_eq!(string.snapshot(), "héllo");
    assert_ne!(string.version(), after_repeat);
    let after_insert = string.version();
    string.push_str("");
    assert_eq!(string.snapshot(), "héllo");
    assert_ne!(string.version(), after_insert);
    string.retain(|_| true);
    assert_eq!(string.snapshot(), "héllo");
    string.repeat(0);
    assert_eq!(string.snapshot(), "");
    assert!(string.is_empty());
    string.switch_version(start);
    string.repeat(3);
    assert_eq!(string.snapshot(), "héllohéllohéllo");
    assert_eq!(string.len(), 18);
}

#[test]
fn cow_multibyte_text() {
    multibyte_text::<CowPersistentString>();
}
#[test]
fn delta_multibyte_text() {
    multibyte_text::<DeltaPersistentString>();
}
#[test]
fn long_buffer_multibyte_text() {
    multibyte_text::<LongBufferPersistentString>();
}
#[test]
fn rope_multibyte_text() {
    multibyte_text::<RopePersistentString>();
}

#[test]
fn cow_push_then_pop() {
    push_then_pop::<CowPersistentString>();
}
#[test]
fn delta_push_then_pop() {
    push_then_pop::<DeltaPersistentString>();
}
#[test]
fn long_buffer_push_then_pop() {
    push_then_pop::<LongBufferPersistentString>();
}
#[test]
fn rope_push_then_pop() {
    push_then_pop::<RopePersistentString>();
}

#[test]
fn cow_pop_empty() {
    pop_empty::<CowPersistentString>();
}
#[test]
fn delta_pop_empty() {
    pop_empty::<DeltaPersistentString>();
}
#[test]
fn long_buffer_pop_empty() {
    pop_empty::<LongBufferPersistentString>();
}
#[test]
fn rope_pop_empty() {
    pop_empty::<RopePersistentString>();
}

#[test]
fn cow_switching() {
    switching::<CowPersistentString>();
}
#[test]
fn delta_switching() {
    switching::<DeltaPersistentString>();
}
#[test]
fn long_buffer_switching() {
    switching::<LongBufferPersistentString>();
}
#[test]
fn rope_switching() {
    switching::<RopePersistentString>();
}

#[test]
fn cow_identity_operations() {
    identity_operations::<CowPersistentString>();
}
#[test]
fn delta_identity_operations() {
    identity_operations::<DeltaPersistentString>();
}
#[test]
fn long_buffer_identity_operations() {
    identity_operations::<LongBufferPersistentString>();
}
#[test]
fn rope_identity_operations() {
    identity_operations::<RopePersistentString>();
}

#[test]
fn version_switch_error_message() {
    assert_eq!(VersionSwitchError::InvalidVersion(7).message(), "there is no version 7");
}
