use scalarboard::names::NameMap;
use scalarboard::text::{begins_with, is_before, is_eval, mentions, section_of};

#[test]
fn strings_are_ordered_by_code_point() {
    let words = ["", "B", "a", "ab", "abc", "b", "train/loss", "é", "\u{1F600}"];
    for a in words {
        for b in words {
            assert_eq!(is_before(a, b), a < b);
        }
    }
}

#[test]
fn prefixes_and_parts_are_found() {
    let words = ["", "e", "eval", "eval/", "eval/x", "xeval/", "tfevents", "events.out.tfevents.1"];
    for a in words {
        for b in words {
            assert_eq!(begins_with(a, b), a.starts_with(b));
            assert_eq!(mentions(a, b), a.contains(b));
        }
    }
}

#[test]
fn evaluation_tags_start_with_eval_and_a_slash() {
    assert!(is_eval("eval/reward"));
    assert!(is_eval("eval/"));
    assert!(!is_eval("eval"));
    assert!(!is_eval("evaluation/reward"));
    assert!(!is_eval("train/eval/reward"));
    assert!(!is_eval(""));
}

#[test]
fn sections_end_at_the_first_slash() {
    assert_eq!(section_of("train/loss/policy"), "train");
    assert_eq!(section_of("loss"), "loss");
    assert_eq!(section_of("/loss"), "");
    assert_eq!(section_of(""), "");
    assert_eq!(section_of("größe/ß"), "größe");
}

#[test]
fn names_are_kept_in_order_and_once() {
    let mut map: NameMap<u32> = NameMap::new();
    for (k, name) in ["m", "c", "x", "c", "a", "m", "b"].iter().enumerate() {
        *map.slot(&name.to_string(), 0) += 10 + k as u32;
    }
    let names: Vec<&str> = map.entries.iter().map(|e| e.0.as_str()).collect();
    assert_eq!(names, vec!["a", "b", "c", "m", "x"]);
    assert_eq!(map.get("c"), Some(&24));
    assert_eq!(map.get("m"), Some(&25));
    assert_eq!(map.get("d"), None);
}
