//! The path functions, held against `std::path` on every short path over a
//! small alphabet, and on chosen longer ones.

use std::path::Path;

use unitypackage::path::{directory, extension, file_name, flatten, join};

/// Every string of at most `max` characters over `alphabet`.
fn words(alphabet: &[char], max: usize) -> Vec<String> {
    let mut all = vec![String::new()];
    let mut last = vec![String::new()];
    for _ in 0..max {
        let mut next = Vec::new();
        for w in &last {
            for c in alphabet {
                let mut longer = w.clone();
                longer.push(*c);
                next.push(longer);
            }
        }
        all.extend(next.iter().cloned());
        last = next;
    }
    all
}

fn std_file_name(p: &str) -> Option<String> {
    Path::new(p).file_name().map(|n| n.to_string_lossy().into_owned())
}

fn std_extension(p: &str) -> Option<String> {
    Path::new(p).extension().map(|e| e.to_string_lossy().into_owned())
}

fn std_parent(p: &str) -> Option<String> {
    Path::new(p).parent().map(|d| d.to_string_lossy().into_owned())
}

fn std_join(root: &str, p: &str) -> String {
    Path::new(root).join(p).to_string_lossy().into_owned()
}

#[test]
fn file_name_agrees_with_std_on_short_paths() {
    for p in words(&['/', '.', 'a', '_'], 7) {
        assert_eq!(file_name(&p), std_file_name(&p), "path {:?}", p);
    }
}

#[test]
fn extension_agrees_with_std_on_short_paths() {
    for p in words(&['/', '.', 'a', '_'], 7) {
        assert_eq!(extension(&p), std_extension(&p), "path {:?}", p);
    }
}

#[test]
fn directory_agrees_with_std_where_there_is_a_file_name() {
    for p in words(&['/', '.', 'a'], 8) {
        if file_name(&p).is_some() {
            assert_eq!(Some(directory(&p)), std_parent(&p), "path {:?}", p);
        }
    }
}

#[test]
fn join_agrees_with_std_on_short_paths() {
    let parts = words(&['/', '.', 'a'], 4);
    for root in &parts {
        for p in &parts {
            assert_eq!(join(root, p), std_join(root, p), "root {:?}, path {:?}", root, p);
        }
    }
}

#[test]
fn joined_paths_have_the_extension_that_std_finds() {
    let parts = words(&['/', '.', 'a'], 4);
    for root in &parts {
        for p in &parts {
            let joined = join(root, p);
            assert_eq!(extension(&joined), std_extension(&joined), "path {:?}", joined);
        }
    }
}

#[test]
fn file_name_of_plain_and_nested_paths() {
    assert_eq!(file_name("Tree.png"), Some("Tree.png".to_string()));
    assert_eq!(file_name("out/Textures/Tree.png"), Some("Tree.png".to_string()));
    assert_eq!(file_name("out/Textures/"), Some("Textures".to_string()));
    assert_eq!(file_name("out/Textures/."), Some("Textures".to_string()));
    assert_eq!(file_name("out/Textures//./"), Some("Textures".to_string()));
    assert_eq!(file_name("/usr"), Some("usr".to_string()));
}

#[test]
fn file_name_is_missing_where_no_segment_names_a_file() {
    assert_eq!(file_name(""), None);
    assert_eq!(file_name("/"), None);
    assert_eq!(file_name("."), None);
    assert_eq!(file_name(".."), None);
    assert_eq!(file_name("out/.."), None);
    assert_eq!(file_name("./"), None);
    assert_eq!(file_name("//"), None);
}

#[test]
fn extension_is_what_follows_the_last_dot() {
    assert_eq!(extension("Tree.png"), Some("png".to_string()));
    assert_eq!(extension("out/Models/Tree.fbx"), Some("fbx".to_string()));
    assert_eq!(extension("archive.tar.gz"), Some("gz".to_string()));
    assert_eq!(extension("out/Tree.PNG"), Some("PNG".to_string()));
    assert_eq!(extension("out/Tree.png/"), Some("png".to_string()));
    assert_eq!(extension("a.b/c.d"), Some("d".to_string()));
}

#[test]
fn extension_after_a_trailing_dot_is_empty() {
    assert_eq!(extension("Tree."), Some(String::new()));
    assert_eq!(extension("out/Tree."), Some(String::new()));
    assert_eq!(extension("..."), Some(String::new()));
}

#[test]
fn extension_is_missing_without_a_dot_inside_the_name() {
    assert_eq!(extension("Tree"), None);
    assert_eq!(extension("out/Tree"), None);
    assert_eq!(extension(".hidden"), None);
    assert_eq!(extension("out/.png"), None);
    assert_eq!(extension("out.d/Tree"), None);
    assert_eq!(extension(""), None);
    assert_eq!(extension("out/"), None);
    assert_eq!(extension(".."), None);
    assert_eq!(extension("Tree.png/.."), None);
}

#[test]
fn extension_of_a_hidden_file_with_a_second_dot() {
    assert_eq!(extension(".hidden.txt"), Some("txt".to_string()));
}

#[test]
fn extension_keeps_characters_beyond_ascii() {
    assert_eq!(extension("Bäume/Tänne.bild"), Some("bild".to_string()));
    assert_eq!(extension("木/木.画像"), Some("画像".to_string()));
    assert_eq!(file_name("木/木.画像"), Some("木.画像".to_string()));
}

#[test]
fn directory_of_nested_and_plain_paths() {
    assert_eq!(directory("out/Textures/Tree.png"), "out/Textures");
    assert_eq!(directory("out/Textures_Tree.png"), "out");
    assert_eq!(directory("Tree.png"), "");
    assert_eq!(directory("/Tree.png"), "/");
    assert_eq!(directory("//Tree.png"), "/");
    assert_eq!(directory("./Tree.png"), ".");
    assert_eq!(directory("out//Tree.png"), "out");
    assert_eq!(directory("out/./Tree.png"), "out");
    assert_eq!(directory("out/sub/Tree.png/"), "out/sub");
    assert_eq!(directory("/a/b"), "/a");
}

#[test]
fn join_puts_one_separator_between_root_and_path() {
    assert_eq!(join("out", "Textures/Tree.png"), "out/Textures/Tree.png");
    assert_eq!(join("out/", "Textures/Tree.png"), "out/Textures/Tree.png");
    assert_eq!(join("out//", "Tree.png"), "out//Tree.png");
    assert_eq!(join("", "Tree.png"), "Tree.png");
    assert_eq!(join("out", ""), "out/");
    assert_eq!(join("", ""), "");
    assert_eq!(join("/", "Tree.png"), "/Tree.png");
}

#[test]
fn join_lets_an_absolute_path_stand_for_itself() {
    assert_eq!(join("out", "/etc/Tree.png"), "/etc/Tree.png");
    assert_eq!(join("", "/"), "/");
}

#[test]
fn flatten_turns_each_separator_into_an_underscore() {
    assert_eq!(flatten("Textures/Tree.png"), "Textures_Tree.png");
    assert_eq!(flatten("a/b/c/d.txt"), "a_b_c_d.txt");
    assert_eq!(flatten("/a//b/"), "_a__b_");
    assert_eq!(flatten("Tree.png"), "Tree.png");
    assert_eq!(flatten(""), "");
    assert_eq!(flatten("a_b/c"), "a_b_c");
    assert_eq!(flatten("a\\b/ç"), "a\\b_ç");
}

#[test]
fn flatten_agrees_with_replacing_on_short_paths() {
    for p in words(&['/', '.', 'a', '_'], 6) {
        let flat = flatten(&p);
        assert_eq!(flat, p.replace("/", "_"));
        assert!(!flat.contains('/'));
        assert_eq!(flat.chars().count(), p.chars().count());
    }
}
