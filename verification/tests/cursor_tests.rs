use shadowd::algoritm::cursors::Cursor;

fn bytes_of(cur: &Cursor) -> Vec<u8> {
    let mut out = Vec::new();
    cur.serialize_into(&mut out);
    out
}

fn slots_of(cur: &Cursor) -> Vec<u8> {
    bytes_of(cur)[..16].to_vec()
}

fn cursor_with(slots: &[u8]) -> Cursor {
    let mut raw = slots.to_vec();
    raw.extend_from_slice(&[0u8; 31]);
    Cursor::charge(&mut raw).unwrap()
}

#[test]
fn new_cursor_is_at_the_first_position() {
    let cur = Cursor::new();
    for cn in 1..=6 {
        assert_eq!(cur.get_pos(cn), Some(0));
    }
    assert_eq!(cur.get_pos(0), None);
    assert_eq!(cur.get_pos(7), None);
    assert_eq!(bytes_of(&cur), vec![0u8; 47]);
}

#[test]
fn set_pos_refuses_slots_past_the_last() {
    let mut cur = Cursor::new();
    assert!(!cur.set_pos(1, 31));
    assert!(!cur.set_pos(0, 3));
    assert!(!cur.set_pos(7, 3));
    assert!(cur.set_pos(1, 30));
    assert_eq!(cur.get_pos(1), Some(30));
    assert!(cur.set_pos(6, 4));
    assert_eq!(cur.get_pos(6), Some(4));
    assert_eq!(slots_of(&cur)[0], 4);
    assert_eq!(slots_of(&cur)[5], 30);
}

#[test]
fn advance_counts_up_in_base_31() {
    let mut cur = Cursor::new();
    for _ in 0..30 {
        assert_eq!(cur.advance(), 2);
    }
    assert_eq!(slots_of(&cur)[15], 30);
    assert_eq!(cur.advance(), 2);
    let s = slots_of(&cur);
    assert_eq!(s[15], 0);
    assert_eq!(s[14], 1);
}

#[test]
fn delay_at_first_position_stays() {
    let mut cur = Cursor::new();
    assert_eq!(cur.delay(), 3);
    assert_eq!(bytes_of(&cur), vec![0u8; 47]);
}

#[test]
fn advance_at_last_position_stays() {
    let mut cur = cursor_with(&[30; 16]);
    assert_eq!(cur.advance(), 3);
    assert_eq!(slots_of(&cur), vec![30u8; 16]);
}

#[test]
fn delay_borrows_across_levels() {
    let mut slots = [0u8; 16];
    slots[10] = 1;
    let mut cur = cursor_with(&slots);
    assert_eq!(cur.delay(), 2);
    let mut expected = [30u8; 16];
    expected[..10].copy_from_slice(&[0; 10]);
    expected[10] = 0;
    assert_eq!(slots_of(&cur), expected.to_vec());
}

#[test]
fn delay_undoes_advance() {
    let mut slots = [0u8; 16];
    slots[13] = 7;
    slots[14] = 30;
    slots[15] = 30;
    let mut cur = cursor_with(&slots);
    let before = bytes_of(&cur);
    assert_eq!(cur.advance(), 2);
    assert_ne!(bytes_of(&cur), before);
    assert_eq!(cur.delay(), 2);
    assert_eq!(bytes_of(&cur), before);
}

#[test]
fn charge_reads_back_what_was_serialized() {
    let mut cur = Cursor::new();
    cur.set_pos(3, 17);
    for _ in 0..45 {
        cur.advance();
    }
    let mut raw = bytes_of(&cur);
    raw.extend_from_slice(&[1, 2, 3]);
    let back = Cursor::charge(&mut raw).unwrap();
    assert_eq!(raw, vec![1, 2, 3]);
    assert_eq!(bytes_of(&back), bytes_of(&cur));
    assert_eq!(back.get_pos(3), Some(17));
}

#[test]
fn serialized_cursor_takes_47_bytes() {
    let mut cur = Cursor::new();
    cur.set_pos(6, 5);
    cur.set_pos(1, 9);
    let mut out = vec![7u8, 8];
    cur.serialize_into(&mut out);
    assert_eq!(out.len(), 2 + 47);
    assert_eq!(&out[..2], &[7, 8]);
    assert_eq!(out[2], 5);
    assert_eq!(out[2 + 5], 9);
    assert!(out[2 + 16..].iter().all(|b| *b == 0));
}

#[test]
fn charge_reads_the_slots_and_skips_the_reserved_bytes() {
    let mut raw = vec![0u8; 50];
    raw[0] = 9;
    raw[5] = 4;
    raw[20] = 1;
    raw[47] = 6;
    let cur = Cursor::charge(&mut raw).unwrap();
    assert_eq!(cur.get_pos(6), Some(9));
    assert_eq!(cur.get_pos(1), Some(4));
    assert_eq!(raw, vec![6, 0, 0]);
}

#[test]
fn charge_of_short_input_fails_and_keeps_it() {
    let mut raw: Vec<u8> = (0u8..46).collect();
    assert!(Cursor::charge(&mut raw).is_none());
    assert_eq!(raw, (0u8..46).collect::<Vec<u8>>());
}

#[test]
fn advance_undoes_delay() {
    let mut slots = [0u8; 16];
    slots[4] = 3;
    let mut cur = cursor_with(&slots);
    let before = bytes_of(&cur);
    assert_eq!(cur.delay(), 2);
    let s = slots_of(&cur);
    assert_eq!(s[4], 2);
    assert!(s[5..].iter().all(|x| *x == 30));
    assert_eq!(cur.advance(), 2);
    assert_eq!(bytes_of(&cur), before);
}

#[test]
fn can_advance_looks_at_the_slot_that_moves() {
    let mut slots = [0u8; 16];
    slots[3] = 255;
    let cur = cursor_with(&slots);
    assert!(cur.can_advance());
    slots[15] = 255;
    let cur = cursor_with(&slots);
    assert!(!cur.can_advance());
    slots[15] = 30;
    slots[14] = 255;
    let cur = cursor_with(&slots);
    assert!(!cur.can_advance());
    assert!(cursor_with(&[30; 16]).can_advance());
}
