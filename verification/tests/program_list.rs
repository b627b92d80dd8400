use redacted_geyser::program_list::{key_at, ProgramList};

#[test]
fn a_new_list_is_empty() {
    let list = ProgramList::new();
    assert!(list.is_empty());
    assert!(!list.contains(&[0; 32]));
}

#[test]
fn inserted_programs_are_found() {
    let mut list = ProgramList::new();
    list.insert([1; 32]);
    list.insert([2; 32]);
    list.insert([1; 32]);
    assert!(!list.is_empty());
    assert!(list.contains(&[1; 32]));
    assert!(list.contains(&[2; 32]));
    let mut other = [1; 32];
    other[31] = 2;
    assert!(!list.contains(&other));
}

#[test]
fn a_cleared_list_is_empty() {
    let mut list = ProgramList::new();
    list.insert([1; 32]);
    list.clear();
    assert!(list.is_empty());
    assert!(!list.contains(&[1; 32]));
}

#[test]
fn keys_are_read_at_an_offset() {
    let mut payload = vec![0u8; 40];
    for i in 0..40 {
        payload[i] = i as u8;
    }
    let key = key_at(&payload, 5);
    assert_eq!(key[0], 5);
    assert_eq!(key[31], 36);
}
