use stroke::storage::{
    came_from_draw, is_saved, mark_from_draw, push_recent, recent, saved, stored_text,
    toggle_saved, MAX_RECENT,
};

#[test]
fn stored_characters_read_back_in_order() {
    assert_eq!(recent(Some("好你")), vec!['好', '你']);
    assert!(recent(None).is_empty());
    assert_eq!(saved(Some("一")), vec!['一']);
    assert_eq!(stored_text(&vec!['好', '你']), "好你");
}

#[test]
fn a_visit_moves_the_character_to_the_front() {
    let mut list = vec!['一', '二', '三'];
    push_recent(&mut list, '二');
    assert_eq!(list, vec!['二', '一', '三']);
    push_recent(&mut list, '四');
    assert_eq!(list, vec!['四', '二', '一', '三']);
    let before = list.clone();
    push_recent(&mut list, '四');
    assert_eq!(list, before, "a second visit in a row changes nothing");
}

#[test]
fn history_is_capped() {
    let mut list: Vec<char> = Vec::new();
    for code in 0x4e00..0x4e00 + 50 {
        push_recent(&mut list, char::from_u32(code).unwrap());
    }
    assert_eq!(list.len(), MAX_RECENT);
    assert_eq!(list[0], char::from_u32(0x4e00 + 49).unwrap());
}

#[test]
fn toggling_saves_and_unsaves() {
    let mut list = vec!['一'];
    assert!(toggle_saved(&mut list, '好'));
    assert_eq!(list, vec!['好', '一']);
    assert!(is_saved(&list, '好'));
    assert!(!toggle_saved(&mut list, '好'));
    assert_eq!(list, vec!['一']);
    assert!(!is_saved(&list, '好'));
}

#[test]
fn the_pad_note_names_the_character_it_opened() {
    assert_eq!(mark_from_draw('你'), "你");
    assert_eq!(came_from_draw(Some("你"), '你'), (true, false));
    assert_eq!(came_from_draw(Some("好"), '你'), (false, true), "a stale note is dropped");
    assert_eq!(came_from_draw(None, '你'), (false, false));
    assert_eq!(came_from_draw(Some(""), '你'), (false, true));
}
