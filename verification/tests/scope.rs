use kwark::scope::Scope;

#[test]
fn register_then_get() {
    let mut s: Scope<i32> = Scope::new();
    s.register("x", 1);
    assert_eq!(s.get("x"), Some(&1));
    assert_eq!(s.get("y"), None);
}

#[test]
fn inner_frames_shadow_and_pop_restores() {
    let mut s: Scope<i32> = Scope::new();
    s.register("x", 1);
    s.push_frame();
    assert_eq!(s.get("x"), Some(&1));
    s.register("x", 2);
    assert_eq!(s.get("x"), Some(&2));
    s.pop_frame();
    assert_eq!(s.get("x"), Some(&1));
}

#[test]
fn blocking_frames_see_only_the_global_frame() {
    let mut s: Scope<i32> = Scope::new();
    s.register("g", 1);
    s.push_frame();
    s.register("local", 2);
    s.push_blocking_frame();
    assert_eq!(s.get("g"), Some(&1));
    assert_eq!(s.get("local"), None);
    s.pop_frame();
    assert_eq!(s.get("local"), Some(&2));
}

#[test]
fn set_changes_only_existing_variables() {
    let mut s: Scope<i32> = Scope::new();
    assert!(!s.set("x", 5));
    s.register("x", 1);
    s.push_frame();
    assert!(s.set("x", 5));
    s.pop_frame();
    assert_eq!(s.get("x"), Some(&5));
}

#[test]
fn the_global_frame_is_never_popped() {
    let mut s: Scope<i32> = Scope::new();
    s.register("x", 1);
    s.pop_frame();
    s.pop_frame();
    assert_eq!(s.get("x"), Some(&1));
}

#[test]
fn names_lists_each_visible_name_once() {
    let mut s: Scope<i32> = Scope::new();
    s.register("a", 1);
    s.push_frame();
    s.register("a", 2);
    s.register("b", 3);
    let mut names = s.names();
    names.sort();
    assert_eq!(names, vec!["a".to_string(), "b".to_string()]);
    s.push_blocking_frame();
    assert_eq!(s.names(), vec!["a".to_string()]);
}

#[test]
fn set_writes_the_binding_that_lookup_finds() {
    let mut s: Scope<i32> = Scope::new();
    s.register("x", 1);
    s.push_frame();
    s.register("x", 2);
    assert!(s.set("x", 3));
    assert_eq!(s.get("x"), Some(&3));
    s.pop_frame();
    assert_eq!(s.get("x"), Some(&1));
}

#[test]
fn set_in_a_loop_body_frame_survives_the_pop() {
    let mut s: Scope<i32> = Scope::new();
    s.register("counter", 0);
    for _ in 0..3 {
        s.push_frame();
        let c = *s.get("counter").unwrap();
        assert!(s.set("counter", c + 1));
        s.pop_frame();
    }
    assert_eq!(s.get("counter"), Some(&3));
    assert_eq!(s.names().len(), 1);
}
