use persistent_string::{
    CowPersistentString, DeltaPersistentString, LongBufferPersistentString, PersistentString,
    RopePersistentString,
};

fn check<S: PersistentString>(string: &mut S, version: usize, expected: &str) {
    string.switch_version(version);
    assert_eq!(string.snapshot(), expected);
}

fn readonly_operations<S: PersistentString>() {
    let mut string = S::new();
    let version_0 = string.version();
    assert!(string.is_empty());
    assert_eq!(string.len(), 0);

    string.push_str("abc");
    let version_1 = string.version();
    assert!(!string.is_empty());
    assert_eq!(string.len(), 3);
    assert_ne!(version_1, version_0);

    string.push('d');
    let version_2 = string.version();
    assert!(!string.is_empty());
    assert_eq!(string.len(), 4);
    assert_ne!(version_2, version_0);
    assert_ne!(version_2, version_1);

    string.repeat(10);
    let version_3 = string.version();
    assert!(!string.is_empty());
    assert_eq!(string.len(), 40);
    assert_ne!(version_3, version_0);
    assert_ne!(version_3, version_1);
    assert_ne!(version_3, version_2);
}

fn push_str_versioning<S: PersistentString>() {
    let mut string = S::new();
    let version_0 = string.version();
    string.push_str("foo");
    let version_1 = string.version();
    assert_eq!(string.snapshot(), "foo");
    string.push_str("bar");
    let version_2 = string.version();
    assert_eq!(string.snapshot(), "foobar");
    string.push_str("baz");
    let version_3 = string.version();
    assert_eq!(string.snapshot(), "foobarbaz");

    check(&mut string, version_1, "foo");
    check(&mut string, version_3, "foobarbaz");
    check(&mut string, version_2, "foobar");
    check(&mut string, version_0, "");
    check(&mut string, version_3, "foobarbaz");
    check(&mut string, version_1, "foo");
}

fn push_versioning<S: PersistentString>() {
    let mut string = S::new();
    let version_0 = string.version();
    let mut versions = vec![];
    for (character, expected) in [
        ('o', "o"),
        ('m', "om"),
        ('a', "oma"),
        ('g', "omag"),
        ('a', "omaga"),
        ('d', "omagad"),
    ] {
        string.push(character);
        versions.push(string.version());
        assert_eq!(string.snapshot(), expected);
    }
    check(&mut string, versions[1], "om");
    string.push('s');
    let version_7 = string.version();
    assert_eq!(string.snapshot(), "oms");
    string.push('k');
    let version_8 = string.version();
    assert_eq!(string.snapshot(), "omsk");

    check(&mut string, versions[0], "o");
    check(&mut string, version_0, "");
    check(&mut string, versions[4], "omaga");
    check(&mut string, version_8, "omsk");
    check(&mut string, versions[2], "oma");
    check(&mut string, versions[3], "omag");
    check(&mut string, version_0, "");
    check(&mut string, versions[1], "om");
    check(&mut string, versions[5], "omagad");
    check(&mut string, version_7, "oms");
}

fn pop_versioning<S: PersistentString>() {
    let mut string = S::new();
    let version_0 = string.version();
    string.push_str("hello");
    let version_1 = string.version();
    assert_eq!(string.pop(), Some('o'));
    let version_2 = string.version();
    assert_eq!(string.snapshot(), "hell");
    string.push(' ');
    let version_3 = string.version();
    string.push_str("world");
    let version_4 = string.version();
    assert_eq!(string.snapshot(), "hell world");

    check(&mut string, version_1, "hello");
    string.push(' ');
    let version_5 = string.version();
    string.push_str("world");
    assert_eq!(string.snapshot(), "hello world");
    let version_6 = string.version();
    assert_eq!(string.pop(), Some('d'));
    let version_7 = string.version();
    assert_eq!(string.pop(), Some('l'));
    let version_8 = string.version();
    assert_eq!(string.pop(), Some('r'));
    let version_9 = string.version();
    assert_eq!(string.snapshot(), "hello wo");

    check(&mut string, version_4, "hell world");
    check(&mut string, version_3, "hell ");
    check(&mut string, version_9, "hello wo");
    check(&mut string, version_5, "hello ");
    check(&mut string, version_2, "hell");
    check(&mut string, version_6, "hello world");
    check(&mut string, version_1, "hello");
    check(&mut string, version_0, "");
    check(&mut string, version_7, "hello worl");
    check(&mut string, version_8, "hello wor");
}

fn repeat_versioning<S: PersistentString>() {
    let mut string = S::new();
    let version_0 = string.version();
    string.repeat(5);
    let version_1 = string.version();
    assert_eq!(string.snapshot(), "");
    assert_ne!(version_0, version_1);

    string.push('x');
    assert_eq!(string.snapshot(), "x");
    let version_2 = string.version();
    string.repeat(3);
    assert_eq!(string.snapshot(), "xxx");
    let version_3 = string.version();
    string.repeat(2);
    assert_eq!(string.snapshot(), "xxxxxx");
    let version_4 = string.version();
    string.push('y');
    assert_eq!(string.snapshot(), "xxxxxxy");
    let version_5 = string.version();
    string.repeat(2);
    assert_eq!(string.snapshot(), "xxxxxxyxxxxxxy");
    let version_6 = string.version();

    check(&mut string, version_4, "xxxxxx");
    string.repeat(3);
    assert_eq!(string.snapshot(), "xxxxxxxxxxxxxxxxxx");
    let version_7 = string.version();

    check(&mut string, version_6, "xxxxxxyxxxxxxy");
    check(&mut string, version_5, "xxxxxxy");
    check(&mut string, version_1, "");
    check(&mut string, version_2, "x");
    check(&mut string, version_0, "");
    check(&mut string, version_7, "xxxxxxxxxxxxxxxxxx");
    check(&mut string, version_2, "x");
    check(&mut string, version_7, "xxxxxxxxxxxxxxxxxx");
    check(&mut string, version_3, "xxx");
    check(&mut string, version_4, "xxxxxx");
}

fn retain_versioning<S: PersistentString>() {
    let mut string = S::new();
    let version_0 = string.version();
    string.push_str("hi there");
    let version_1 = string.version();
    string.retain(|character| character == 'e');
    let version_2 = string.version();
    assert_eq!(string.snapshot(), "ee");
    string.push_str("gogo");
    let version_3 = string.version();
    assert_eq!(string.snapshot(), "eegogo");
    string.retain(|_| false);
    let version_4 = string.version();
    assert_eq!(string.snapshot(), "");
    string.push_str("okay bye");
    let version_5 = string.version();
    assert_eq!(string.snapshot(), "okay bye");
    string.retain(|character| character != 'k' && character != 'a' && character != 'b');
    let version_6 = string.version();
    assert_eq!(string.snapshot(), "oy ye");

    check(&mut string, version_3, "eegogo");
    string.retain(|_| true);
    let version_7 = string.version();
    assert_eq!(string.snapshot(), "eegogo");
    assert_ne!(version_7, version_3);

    check(&mut string, version_1, "hi there");
    string.retain(|character| character != 'e');
    let version_8 = string.version();
    assert_eq!(string.snapshot(), "hi thr");

    check(&mut string, version_3, "eegogo");
    check(&mut string, version_8, "hi thr");
    check(&mut string, version_6, "oy ye");
    check(&mut string, version_0, "");
    check(&mut string, version_5, "okay bye");
    check(&mut string, version_2, "ee");
    check(&mut string, version_7, "eegogo");
    check(&mut string, version_8, "hi thr");
    check(&mut string, version_1, "hi there");
    check(&mut string, version_0, "");
    check(&mut string, version_5, "okay bye");
    check(&mut string, version_4, "");
}

fn insert_versioning<S: PersistentString>() {
    let mut string = S::new();
    let version_0 = string.version();
    string.insert(0, 'a');
    let version_1 = string.version();
    assert_eq!(string.snapshot(), "a");
    string.insert(1, 'b');
    let version_2 = string.version();
    assert_eq!(string.snapshot(), "ab");
    string.insert(2, 'c');
    let version_3 = string.version();
    assert_eq!(string.snapshot(), "abc");
    string.insert(1, 'd');
    let version_4 = string.version();
    assert_eq!(string.snapshot(), "adbc");
    string.insert(0, '_');
    let version_5 = string.version();
    assert_eq!(string.snapshot(), "_adbc");

    check(&mut string, version_3, "abc");
    string.insert(3, 'x');
    let version_6 = string.version();
    assert_eq!(string.snapshot(), "abcx");
    string.insert(0, '*');
    let version_7 = string.version();
    assert_eq!(string.snapshot(), "*abcx");

    check(&mut string, version_7, "*abcx");
    check(&mut string, version_6, "abcx");
    check(&mut string, version_2, "ab");
    check(&mut string, version_5, "_adbc");
    check(&mut string, version_1, "a");
    check(&mut string, version_6, "abcx");
    check(&mut string, version_4, "adbc");
    check(&mut string, version_2, "ab");
    check(&mut string, version_0, "");
    check(&mut string, version_3, "abc");
}

fn insert_str_versioning<S: PersistentString>() {
    let mut string = S::new();
    let version_0 = string.version();
    string.insert_str(0, "foo");
    let version_1 = string.version();
    assert_eq!(string.snapshot(), "foo");
    string.insert_str(2, "bar");
    let version_2 = string.version();
    assert_eq!(string.snapshot(), "fobaro");
    string.insert_str(6, "baz");
    let version_3 = string.version();
    assert_eq!(string.snapshot(), "fobarobaz");
    string.insert_str(0, "qux");
    let version_4 = string.version();
    assert_eq!(string.snapshot(), "quxfobarobaz");

    check(&mut string, version_2, "fobaro");
    string.insert_str(4, "wow");
    let version_5 = string.version();
    assert_eq!(string.snapshot(), "fobawowro");
    string.insert_str(7, "");
    let version_6 = string.version();
    assert_eq!(string.snapshot(), "fobawowro");
    assert_ne!(version_6, version_5);
    string.insert_str(7, "<*>");
    let version_7 = string.version();
    assert_eq!(string.snapshot(), "fobawow<*>ro");

    check(&mut string, version_1, "foo");
    check(&mut string, version_0, "");
    check(&mut string, version_4, "quxfobarobaz");
    check(&mut string, version_3, "fobarobaz");
    check(&mut string, version_7, "fobawow<*>ro");
    check(&mut string, version_6, "fobawowro");
    check(&mut string, version_1, "foo");
    check(&mut string, version_7, "fobawow<*>ro");
    check(&mut string, version_2, "fobaro");
    check(&mut string, version_5, "fobawowro");
}

#[test]
fn cow_readonly_operations() {
    readonly_operations::<CowPersistentString>();
}
#[test]
fn delta_readonly_operations() {
    readonly_operations::<DeltaPersistentString>();
}
#[test]
fn long_buffer_readonly_operations() {
    readonly_operations::<LongBufferPersistentString>();
}
#[test]
fn rope_readonly_operations() {
    readonly_operations::<RopePersistentString>();
}

#[test]
fn cow_push_str_versioning() {
    push_str_versioning::<CowPersistentString>();
}
#[test]
fn delta_push_str_versioning() {
    push_str_versioning::<DeltaPersistentString>();
}
#[test]
fn long_buffer_push_str_versioning() {
    push_str_versioning::<LongBufferPersistentString>();
}
#[test]
fn rope_push_str_versioning() {
    push_str_versioning::<RopePersistentString>();
}

#[test]
fn cow_push_versioning() {
    push_versioning::<CowPersistentString>();
}
#[test]
fn delta_push_versioning() {
    push_versioning::<DeltaPersistentString>();
}
#[test]
fn long_buffer_push_versioning() {
    push_versioning::<LongBufferPersistentString>();
}
#[test]
fn rope_push_versioning() {
    push_versioning::<RopePersistentString>();
}

#[test]
fn cow_pop_versioning() {
    pop_versioning::<CowPersistentString>();
}
#[test]
fn delta_pop_versioning() {
    pop_versioning::<DeltaPersistentString>();
}
#[test]
fn long_buffer_pop_versioning() {
    pop_versioning::<LongBufferPersistentString>();
}
#[test]
fn rope_pop_versioning() {
    pop_versioning::<RopePersistentString>();
}

#[test]
fn cow_repeat_versioning() {
    repeat_versioning::<CowPersistentString>();
}
#[test]
fn delta_repeat_versioning() {
    repeat_versioning::<DeltaPersistentString>();
}
#[test]
fn long_buffer_repeat_versioning() {
    repeat_versioning::<LongBufferPersistentString>();
}
#[test]
fn rope_repeat_versioning() {
    repeat_versioning::<RopePersistentString>();
}

#[test]
fn cow_retain_versioning() {
    retain_versioning::<CowPersistentString>();
}
#[test]
fn delta_retain_versioning() {
    retain_versioning::<DeltaPersistentString>();
}
#[test]
fn long_buffer_retain_versioning() {
    retain_versioning::<LongBufferPersistentString>();
}
#[test]
fn rope_retain_versioning() {
    retain_versioning::<RopePersistentString>();
}

#[test]
fn cow_insert_versioning() {
    insert_versioning::<CowPersistentString>();
}
#[test]
fn delta_insert_versioning() {
    insert_versioning::<DeltaPersistentString>();
}
#[test]
fn long_buffer_insert_versioning() {
    insert_versioning::<LongBufferPersistentString>();
}
#[test]
fn rope_insert_versioning() {
    insert_versioning::<RopePersistentString>();
}

#[test]
fn cow_insert_str_versioning() {
    insert_str_versioning::<CowPersistentString>();
}
#[test]
fn delta_insert_str_versioning() {
    insert_str_versioning::<DeltaPersistentString>();
}
#[test]
fn long_buffer_insert_str_versioning() {
    insert_str_versioning::<LongBufferPersistentString>();
}
#[test]
fn rope_insert_str_versioning() {
    insert_str_versioning::<RopePersistentString>();
}
