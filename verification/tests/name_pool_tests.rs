use binding_generator::debug_comment;
use binding_generator::name_pool::reserved_rename;
use binding_generator::name_pool::NamePool;

#[test]
fn reserved_words_get_safe_spelling() {
    assert_eq!(reserved_rename(b"box"), b"box_".to_vec());
    assert_eq!(reserved_rename(b"type"), b"type_".to_vec());
    assert_eq!(reserved_rename(b"match"), b"match_".to_vec());
    assert_eq!(reserved_rename(b"yield"), b"yield_".to_vec());
}

#[test]
fn ordinary_names_pass_through() {
    assert_eq!(reserved_rename(b"resize"), b"resize".to_vec());
    assert_eq!(reserved_rename(b"boxed"), b"boxed".to_vec());
    assert_eq!(reserved_rename(b""), b"".to_vec());
}

#[test]
fn free_name_is_returned_unchanged() {
    let mut pool = NamePool::new();
    assert_eq!(pool.allocate(b"resize", b"p"), b"resize".to_vec());
}

#[test]
fn collision_appends_disambiguator_then_ordinals() {
    let mut pool = NamePool::new();
    assert_eq!(pool.allocate(b"get", b"pi"), b"get".to_vec());
    assert_eq!(pool.allocate(b"get", b"pi"), b"get_pi".to_vec());
    assert_eq!(pool.allocate(b"get", b"pi"), b"get_pi_1".to_vec());
    assert_eq!(pool.allocate(b"get", b"pi"), b"get_pi_2".to_vec());
}

#[test]
fn allocation_is_pairwise_distinct() {
    let mut pool = NamePool::new();
    let mut seen: Vec<Vec<u8>> = Vec::new();
    for _ in 0..10 {
        let name = pool.allocate(b"f", b"cc");
        assert!(!seen.contains(&name));
        seen.push(name);
    }
}

#[test]
fn allocation_is_deterministic_across_runs() {
    let mut first: Vec<Vec<u8>> = Vec::new();
    let mut second: Vec<Vec<u8>> = Vec::new();
    for out in [&mut first, &mut second] {
        let mut pool = NamePool::new();
        out.push(pool.allocate(b"box", b""));
        out.push(pool.allocate(b"get", b"pi"));
        out.push(pool.allocate(b"get", b"pi"));
        out.push(pool.allocate(b"get", b"pi"));
    }
    assert_eq!(first, second);
}

#[test]
fn reserved_word_allocation_uses_safe_spelling() {
    let mut pool = NamePool::new();
    assert_eq!(pool.allocate(b"box", b""), b"box_".to_vec());
}

#[test]
fn debug_comment_carries_text_and_origin() {
    let c = debug_comment(true, b"fn resize", b"core/array.hpp", 42);
    assert_eq!(c, b"// fn resize core/array.hpp:42".to_vec());
}

#[test]
fn debug_comment_off_is_empty() {
    let c = debug_comment(false, b"fn resize", b"core/array.hpp", 42);
    assert!(c.is_empty());
}
