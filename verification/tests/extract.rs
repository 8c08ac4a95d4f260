//! The asset folder reader and the projector.

use std::collections::BTreeMap;

use unitypackage::extract::{
    asset_folder_pathname, extract, handle_asset, output_path, tmp_folder, AssetError,
    AssetFolder, Extraction, Malformed, Scratch, Step, PATHNAME_FILE, PAYLOAD_FILE,
};

fn folder(path: &str, has_payload: bool, pathname: Option<&str>) -> AssetFolder {
    AssetFolder { path: path.to_string(), has_payload, pathname: pathname.map(|t| t.to_string()) }
}

/// The tree of two assets: `A` declares a texture, with a line end; `B`
/// declares a model, without one.
fn two_assets() -> Vec<AssetFolder> {
    vec![
        folder("tmp/A", true, Some("Textures/Tree.png\n")),
        folder("tmp/B", true, Some("Models/Tree.fbx")),
    ]
}

fn copy(source: &str, directory: &str, destination: &str) -> Step {
    Step::Copy {
        source: source.to_string(),
        directory: directory.to_string(),
        destination: destination.to_string(),
    }
}

fn filtered(folder: &str, name: &str) -> Step {
    Step::Filtered { folder: folder.to_string(), name: name.to_string() }
}

fn list(extensions: &[&str]) -> Vec<String> {
    extensions.iter().map(|e| e.to_string()).collect()
}

/// Carries the copies of `steps` out on `tree`, which maps each output path
/// to the payload it was last copied from.
fn carry_out(tree: &mut BTreeMap<String, String>, steps: &[Step]) {
    for step in steps {
        if let Step::Copy { source, destination, .. } = step {
            tree.insert(destination.clone(), source.clone());
        }
    }
}

#[test]
fn names_of_the_files_in_an_asset_folder() {
    assert_eq!(PAYLOAD_FILE, "asset");
    assert_eq!(PATHNAME_FILE, "pathname");
}

#[test]
fn folder_without_payload_and_pathname_is_no_asset() {
    assert_eq!(asset_folder_pathname(&folder("tmp/X", false, None)), Ok(None));
}

#[test]
fn folder_without_payload_is_no_asset_whatever_its_pathname() {
    assert_eq!(asset_folder_pathname(&folder("tmp/X", false, Some("a.png"))), Ok(None));
    assert_eq!(asset_folder_pathname(&folder("tmp/X", false, Some(""))), Ok(None));
}

#[test]
fn payload_without_pathname_is_malformed() {
    assert_eq!(
        asset_folder_pathname(&folder("tmp/X", true, None)),
        Err(AssetError::MissingPathname)
    );
}

#[test]
fn payload_with_empty_pathname_is_malformed() {
    assert_eq!(
        asset_folder_pathname(&folder("tmp/X", true, Some(""))),
        Err(AssetError::EmptyPathname)
    );
}

#[test]
fn declared_path_is_the_first_line_of_the_pathname_file() {
    let declared = |text: &str| asset_folder_pathname(&folder("tmp/X", true, Some(text)));
    assert_eq!(declared("Textures/Tree.png"), Ok(Some("Textures/Tree.png".to_string())));
    assert_eq!(declared("Textures/Tree.png\n"), Ok(Some("Textures/Tree.png".to_string())));
    assert_eq!(declared("Textures/Tree.png\r\n"), Ok(Some("Textures/Tree.png".to_string())));
    assert_eq!(declared("Textures/Tree.png\n00\n"), Ok(Some("Textures/Tree.png".to_string())));
    assert_eq!(declared("\nTextures/Tree.png"), Ok(Some(String::new())));
}

#[test]
fn output_path_preserves_or_flattens() {
    assert_eq!(output_path("out", "Textures/Tree.png", false), "out/Textures/Tree.png");
    assert_eq!(output_path("out", "Textures/Tree.png", true), "out/Textures_Tree.png");
    assert_eq!(output_path("out/", "a/b/c.txt", true), "out/a_b_c.txt");
    assert_eq!(output_path("", "a/b/c.txt", true), "a_b_c.txt");
    assert_eq!(output_path("out", "Tree.png", true), "out/Tree.png");
    assert_eq!(output_path("out", "Tree.png", false), "out/Tree.png");
}

#[test]
fn output_path_of_an_absolute_declared_path() {
    assert_eq!(output_path("out", "/Textures/Tree.png", false), "/Textures/Tree.png");
    assert_eq!(output_path("out", "/Textures/Tree.png", true), "out/_Textures_Tree.png");
}

#[test]
fn flattened_output_lies_right_under_the_root() {
    for declared in ["a/b.png", "a/b/c/d.png", "/a/b.png", "a//b.png", "a/./b.png", "a/../b"] {
        let out = output_path("out/root", declared, true);
        let rest = out.strip_prefix("out/root/").unwrap();
        assert!(!rest.contains('/'), "declared {:?}", declared);
        assert_eq!(rest, declared.replace("/", "_"));
    }
}

#[test]
fn extract_preserving_paths() {
    let outcome = extract(&two_assets(), "out", false, None);
    assert_eq!(
        outcome,
        Extraction {
            steps: vec![
                copy("tmp/A/asset", "out/Textures", "out/Textures/Tree.png"),
                copy("tmp/B/asset", "out/Models", "out/Models/Tree.fbx"),
            ],
            failure: None,
            count: 2,
        }
    );
}

#[test]
fn extract_flattening_paths() {
    let outcome = extract(&two_assets(), "out", true, None);
    assert_eq!(
        outcome,
        Extraction {
            steps: vec![
                copy("tmp/A/asset", "out", "out/Textures_Tree.png"),
                copy("tmp/B/asset", "out", "out/Models_Tree.fbx"),
            ],
            failure: None,
            count: 2,
        }
    );
}

#[test]
fn extract_with_a_filter_flattening() {
    let only = list(&["fbx"]);
    let outcome = extract(&two_assets(), "out", true, Some(&only));
    assert_eq!(
        outcome,
        Extraction {
            steps: vec![
                filtered("A", "Textures_Tree.png"),
                copy("tmp/B/asset", "out", "out/Models_Tree.fbx"),
            ],
            failure: None,
            count: 1,
        }
    );
}

#[test]
fn extract_with_a_filter_preserving() {
    let only = list(&["fbx"]);
    let outcome = extract(&two_assets(), "out", false, Some(&only));
    assert_eq!(
        outcome,
        Extraction {
            steps: vec![
                filtered("A", "Tree.png"),
                copy("tmp/B/asset", "out/Models", "out/Models/Tree.fbx"),
            ],
            failure: None,
            count: 1,
        }
    );
}

#[test]
fn filter_law_on_png_and_meta() {
    let folders = vec![
        folder("tmp/A", true, Some("Textures/Tree.png")),
        folder("tmp/B", true, Some("Textures/Tree.png.meta")),
    ];
    let only = list(&["png"]);
    let outcome = extract(&folders, "out", false, Some(&only));
    assert_eq!(
        outcome.steps,
        vec![
            copy("tmp/A/asset", "out/Textures", "out/Textures/Tree.png"),
            filtered("B", "Tree.png.meta"),
        ]
    );
    assert_eq!(outcome.count, 1);
    assert_eq!(outcome.failure, None);
}

#[test]
fn filter_is_exact_about_case_and_dots() {
    let only = list(&["png"]);
    let step = |declared: &str| {
        handle_asset(&folder("tmp/A", true, Some(declared)), "out", false, Some(&only)).unwrap()
    };
    assert_eq!(step("Tree.PNG"), filtered("A", "Tree.PNG"));
    assert_eq!(step("Tree.png2"), filtered("A", "Tree.png2"));
    assert_eq!(step("Tree.png."), filtered("A", "Tree.png."));
    assert_eq!(step("Tree.tar.png"), copy("tmp/A/asset", "out", "out/Tree.tar.png"));
}

#[test]
fn filter_with_several_extensions() {
    let only = list(&["fbx", "png", "png"]);
    let outcome = extract(&two_assets(), "out", true, Some(&only));
    assert_eq!(outcome.count, 2);
}

#[test]
fn empty_filter_lets_nothing_through() {
    let only = list(&[]);
    let outcome = extract(&two_assets(), "out", true, Some(&only));
    assert_eq!(
        outcome.steps,
        vec![filtered("A", "Textures_Tree.png"), filtered("B", "Models_Tree.fbx")]
    );
    assert_eq!(outcome.count, 0);
}

#[test]
fn output_path_without_extension_is_never_copied() {
    let only = list(&["png", ""]);
    for declared in ["Textures/Tree", "README", ".hidden", "Textures/", "a.b/c", "", ".."] {
        let text = format!("{}\n", declared);
        let asset = folder("tmp/A", true, Some(&text));
        for flatten in [false, true] {
            if flatten && declared == "a.b/c" {
                continue;
            }
            assert_eq!(handle_asset(&asset, "out", flatten, None), Ok(Step::NoExtension));
            assert_eq!(handle_asset(&asset, "out", flatten, Some(&only)), Ok(Step::NoExtension));
        }
    }
}

#[test]
fn flattening_can_give_an_extension_that_the_declared_path_lacks() {
    let asset = folder("tmp/A", true, Some("a.b/c"));
    assert_eq!(handle_asset(&asset, "out", false, None), Ok(Step::NoExtension));
    assert_eq!(
        handle_asset(&asset, "out", true, None),
        Ok(copy("tmp/A/asset", "out", "out/a.b_c"))
    );
}

#[test]
fn file_named_by_a_dot_and_an_extension_has_none() {
    let only = vec!["png".to_string()];
    let asset = folder("tmp/A", true, Some("Textures/.png\n"));
    for flatten in [false, true] {
        let expected = if flatten {
            Ok(copy("tmp/A/asset", "out", "out/Textures_.png"))
        } else {
            Ok(Step::NoExtension)
        };
        assert_eq!(handle_asset(&asset, "out", flatten, Some(&only)), expected);
    }
    let bare = folder("tmp/A", true, Some(".png\n"));
    assert_eq!(handle_asset(&bare, "out", true, Some(&only)), Ok(Step::NoExtension));
    assert_eq!(handle_asset(&bare, "out", false, None), Ok(Step::NoExtension));
}

#[test]
fn trailing_dot_gives_an_empty_extension() {
    let asset = folder("tmp/A", true, Some("Textures/Tree."));
    assert_eq!(
        handle_asset(&asset, "out", false, None),
        Ok(copy("tmp/A/asset", "out/Textures", "out/Textures/Tree."))
    );
    let only = list(&["png"]);
    assert_eq!(handle_asset(&asset, "out", false, Some(&only)), Ok(filtered("A", "Tree.")));
    let empty = list(&[""]);
    assert_eq!(
        handle_asset(&asset, "out", false, Some(&empty)),
        Ok(copy("tmp/A/asset", "out/Textures", "out/Textures/Tree."))
    );
}

#[test]
fn handle_asset_skips_what_is_no_asset() {
    assert_eq!(handle_asset(&folder("tmp/X", false, None), "out", false, None), Ok(Step::NotAsset));
    let only = list(&["png"]);
    assert_eq!(
        handle_asset(&folder("tmp/X", false, Some("a.png")), "out", true, Some(&only)),
        Ok(Step::NotAsset)
    );
}

#[test]
fn handle_asset_reports_a_malformed_folder() {
    assert_eq!(
        handle_asset(&folder("tmp/X", true, None), "out", false, None),
        Err(AssetError::MissingPathname)
    );
    assert_eq!(
        handle_asset(&folder("tmp/X", true, Some("")), "out", true, None),
        Err(AssetError::EmptyPathname)
    );
}

#[test]
fn passed_over_folder_is_named_by_its_last_segment() {
    let only = list(&["fbx"]);
    let step = |path: &str| {
        handle_asset(&folder(path, true, Some("Tree.png")), "out", false, Some(&only)).unwrap()
    };
    assert_eq!(step("/tmp/x/0a1b2c"), filtered("0a1b2c", "Tree.png"));
    assert_eq!(step("0a1b2c/"), filtered("0a1b2c", "Tree.png"));
    assert_eq!(step(".."), filtered("..", "Tree.png"));
    assert_eq!(step(""), filtered("", "Tree.png"));
}

#[test]
fn payload_is_looked_for_inside_the_folder() {
    let step = |path: &str| {
        handle_asset(&folder(path, true, Some("Tree.png")), "out", false, None).unwrap()
    };
    assert_eq!(step("/tmp/x/A"), copy("/tmp/x/A/asset", "out", "out/Tree.png"));
    assert_eq!(step("/tmp/x/A/"), copy("/tmp/x/A/asset", "out", "out/Tree.png"));
    assert_eq!(step(""), copy("asset", "out", "out/Tree.png"));
}

#[test]
fn extract_of_an_empty_tree() {
    let outcome = extract(&Vec::new(), "out", false, None);
    assert_eq!(outcome, Extraction { steps: vec![], failure: None, count: 0 });
}

#[test]
fn extract_counts_copies_only() {
    let folders = vec![
        folder("tmp/0", false, None),
        folder("tmp/1", true, Some("Textures/Tree.png\n")),
        folder("tmp/2", true, Some("LICENSE\n")),
        folder("tmp/3", true, Some("Textures/Tree.png.meta\n")),
        folder("tmp/4", true, Some("Models/Tree.fbx\n")),
    ];
    let only = list(&["png", "fbx"]);
    let outcome = extract(&folders, "out", false, Some(&only));
    assert_eq!(
        outcome.steps,
        vec![
            Step::NotAsset,
            copy("tmp/1/asset", "out/Textures", "out/Textures/Tree.png"),
            Step::NoExtension,
            filtered("3", "Tree.png.meta"),
            copy("tmp/4/asset", "out/Models", "out/Models/Tree.fbx"),
        ]
    );
    assert_eq!(outcome.count, 2);
    assert_eq!(outcome.failure, None);
    assert!(outcome.count <= folders.len());
}

#[test]
fn extract_stops_at_the_first_malformed_folder() {
    let folders = vec![
        folder("tmp/1", true, Some("Textures/Tree.png\n")),
        folder("tmp/2", true, None),
        folder("tmp/3", true, Some("Models/Tree.fbx\n")),
        folder("tmp/4", true, Some("")),
    ];
    let outcome = extract(&folders, "out", false, None);
    assert_eq!(
        outcome,
        Extraction {
            steps: vec![copy("tmp/1/asset", "out/Textures", "out/Textures/Tree.png")],
            failure: Some(Malformed { index: 1, error: AssetError::MissingPathname }),
            count: 1,
        }
    );
}

#[test]
fn extract_reports_an_empty_pathname_file() {
    let folders = vec![folder("tmp/1", true, Some("")), folder("tmp/2", true, None)];
    let outcome = extract(&folders, "out", true, None);
    assert_eq!(
        outcome,
        Extraction {
            steps: vec![],
            failure: Some(Malformed { index: 0, error: AssetError::EmptyPathname }),
            count: 0,
        }
    );
}

#[test]
fn extracting_twice_leaves_the_same_tree() {
    let folders = vec![
        folder("tmp/1", true, Some("Textures/Tree.png\n")),
        folder("tmp/2", true, Some("Textures/Tree.png\n")),
        folder("tmp/3", true, Some("Models/Tree.fbx\n")),
    ];
    for flatten in [false, true] {
        let first = extract(&folders, "out", flatten, None);
        let second = extract(&folders, "out", flatten, None);
        assert_eq!(first, second);
        let mut tree = BTreeMap::new();
        tree.insert("out/old.txt".to_string(), "elsewhere".to_string());
        carry_out(&mut tree, &first.steps);
        let once = tree.clone();
        carry_out(&mut tree, &second.steps);
        assert_eq!(tree, once);
        assert_eq!(once.len(), 3);
        let texture = if flatten { "out/Textures_Tree.png" } else { "out/Textures/Tree.png" };
        assert_eq!(once.get(texture), Some(&"tmp/2/asset".to_string()));
    }
}

#[test]
fn tmp_folder_takes_the_directory_that_was_named() {
    let named = "scratch/here".to_string();
    assert_eq!(tmp_folder(Some(&named)), Scratch::Given("scratch/here".to_string()));
}

#[test]
fn tmp_folder_asks_for_a_temporary_directory_otherwise() {
    assert_eq!(tmp_folder(None), Scratch::Temporary);
}
