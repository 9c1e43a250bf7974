use kwark::buffer::Buffer;
use kwark::buffer_list::{BufferEntry, BufferKind, BufferList};

#[test]
fn scratch_buffers_are_found_again_by_name() {
    let mut list = BufferList::new();
    let a = list.scratch("notes".to_string());
    let b = list.scratch("todo".to_string());
    assert_ne!(a, b);
    assert_eq!(list.scratch("notes".to_string()), a);
    assert_eq!(list.iter().len(), 2);
}

#[test]
fn deleted_buffers_are_gone() {
    let mut list = BufferList::new();
    let a = list.scratch("notes".to_string());
    assert!(list.get(a).is_some());
    assert!(list.delete(a));
    assert!(list.get(a).is_none());
    assert!(!list.delete(a));
    let c = list.scratch("notes".to_string());
    assert_ne!(a, c);
}

#[test]
fn added_entries_get_fresh_ids_and_are_found_by_kind() {
    let mut list = BufferList::new();
    let id = list.add(BufferEntry::with_kind(Buffer::from_str("x"), BufferKind::File("/tmp/a".to_string())));
    assert_eq!(list.find_kind(&BufferKind::File("/tmp/a".to_string())), Some(id));
    assert_eq!(list.find_kind(&BufferKind::Scratch("/tmp/a".to_string())), None);
    assert_eq!(list.get(id).unwrap().rope().to_string(), "x");
    assert_eq!(list.get_raw(id).unwrap().kind().describe(), "/tmp/a");
}
