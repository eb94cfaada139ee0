use dnt::error::TextChangeError;
use dnt::mappings::{derive_path, get_relative_specifier, join_segments};
use dnt::text_changes::{apply_text_changes, TextChange};

fn change(start: usize, end: usize, new_text: &str) -> TextChange {
    TextChange { start, end, new_text: String::from(new_text) }
}

#[test]
fn applying_changes_in_any_order_gives_the_same_text() {
    let text = "hello world";
    let a = vec![change(0, 5, "goodbye"), change(6, 11, "moon")];
    let b = vec![change(6, 11, "moon"), change(0, 5, "goodbye")];
    let ra = apply_text_changes(text, a).unwrap();
    let rb = apply_text_changes(text, b).unwrap();
    assert_eq!(ra, "goodbye moon");
    assert_eq!(ra, rb);
}

#[test]
fn applying_no_changes_returns_the_text_unchanged() {
    let text = "nothing to do here";
    let r = apply_text_changes(text, Vec::new()).unwrap();
    assert_eq!(r, text);
}

#[test]
fn an_insertion_at_a_point_splices_text_in() {
    let text = "ab";
    let r = apply_text_changes(text, vec![change(1, 1, "XYZ")]).unwrap();
    assert_eq!(r, "aXYZb");
}

#[test]
fn overlapping_changes_are_refused() {
    let text = "hello world";
    let r = apply_text_changes(text, vec![change(0, 6, "a"), change(5, 8, "b")]);
    match r {
        Err(TextChangeError::Overlap { first_start, first_end, second_start, .. }) => {
            assert_eq!(first_start, 0);
            assert_eq!(first_end, 6);
            assert_eq!(second_start, 5);
        },
        _ => panic!("expected an overlap error"),
    }
}

#[test]
fn out_of_bounds_changes_are_refused() {
    let text = "short";
    let r = apply_text_changes(text, vec![change(2, 99, "a")]);
    match r {
        Err(TextChangeError::OutOfBounds { start, end, text_len }) => {
            assert_eq!(start, 2);
            assert_eq!(end, 99);
            assert_eq!(text_len, 5);
        },
        _ => panic!("expected an out-of-bounds error"),
    }
}

fn segments(parts: &[&str]) -> Vec<String> {
    parts.iter().map(|p| String::from(*p)).collect()
}

#[test]
fn local_paths_keep_their_segments() {
    let s = dnt::specifier::ModuleSpecifier { text: String::from("file:///home/proj/a.ts") };
    let p = derive_path(&s);
    assert_eq!(p, segments(&["home", "proj", "a.ts"]));
}

#[test]
fn remote_paths_are_namespaced_under_deps() {
    let s = dnt::specifier::ModuleSpecifier { text: String::from("https://host/lib/x.ts") };
    let p = derive_path(&s);
    assert_eq!(p, segments(&["deps", "host", "lib", "x.ts"]));
}

#[test]
fn hostile_segments_are_replaced() {
    let s = dnt::specifier::ModuleSpecifier { text: String::from("file:///a/../b.ts") };
    let p = derive_path(&s);
    assert_eq!(p, segments(&["a", "_", "b.ts"]));
}

#[test]
fn sibling_files_get_a_dot_slash_specifier() {
    let from = segments(&["home", "a.ts"]);
    let to = segments(&["home", "b.ts"]);
    assert_eq!(get_relative_specifier(&from, &to), "./b.ts");
}

#[test]
fn deeper_sources_step_up_with_dot_dot() {
    let from = segments(&["home", "sub", "a.ts"]);
    let to = segments(&["home", "b.ts"]);
    assert_eq!(get_relative_specifier(&from, &to), "../b.ts");
}

#[test]
fn unrelated_directories_step_all_the_way_up() {
    let from = segments(&["one", "two", "a.ts"]);
    let to = segments(&["three", "b.ts"]);
    assert_eq!(get_relative_specifier(&from, &to), "../../three/b.ts");
}

#[test]
fn descending_keeps_the_leading_dot_slash() {
    let from = segments(&["a.ts"]);
    let to = segments(&["deps", "host", "x.ts"]);
    assert_eq!(get_relative_specifier(&from, &to), "./deps/host/x.ts");
}

#[test]
fn relative_specifiers_resolve_back_to_the_target() {
    // resolve the emitted specifier textually against the source directory
    let from = segments(&["one", "two", "a.ts"]);
    let to = segments(&["one", "b.ts"]);
    let rel = get_relative_specifier(&from, &to);
    let mut stack: Vec<String> = from[..from.len() - 1].to_vec();
    for part in rel.split('/') {
        if part == "." {
        } else if part == ".." {
            stack.pop();
        } else {
            stack.push(String::from(part));
        }
    }
    assert_eq!(stack, to);
}

#[test]
fn join_segments_uses_forward_slashes() {
    assert_eq!(join_segments(&segments(&["a", "b", "c.ts"])), "a/b/c.ts");
    assert_eq!(join_segments(&segments(&["c.ts"])), "c.ts");
}
