use std::collections::HashMap;

use auto_rename_screenshots::mods::cliinput::CompressType;
use auto_rename_screenshots::mods::file::{
    balance_inputs, balance_inputs_with, compress_action, next_dir, plan_renames,
    prepare_renames, walk_step, CompressAction, DirWalk, RenameStep,
};
use auto_rename_screenshots::mods::order::{compare_bytes_le, compare_paths_le, sort_paths};
use auto_rename_screenshots::mods::types::PCHStdError;

fn strings(list: &[&str]) -> Vec<String> {
    list.iter().map(|s| s.to_string()).collect()
}

fn counts(v: &[String]) -> HashMap<String, usize> {
    let mut m = HashMap::new();
    for s in v {
        *m.entry(s.clone()).or_insert(0) += 1;
    }
    m
}

#[test]
fn bytes_order() {
    assert!(compare_bytes_le(b"", b""));
    assert!(compare_bytes_le(b"", b"a"));
    assert!(!compare_bytes_le(b"a", b""));
    assert!(compare_bytes_le(b"ab", b"ac"));
    assert!(!compare_bytes_le(b"ac", b"ab"));
    assert!(compare_bytes_le(b"ab", b"abc"));
    assert!(compare_bytes_le(b"abc", b"abc"));
    assert!(compare_paths_le(&"in/B.png".to_string(), &"in/a.png".to_string()));
}

#[test]
fn sort_paths_orders_by_bytes() {
    let v = strings(&["in/c.png", "in/a.png", "in/B.png", "in/a.jpg", "in/a.png"]);
    let s = sort_paths(&v);
    assert_eq!(
        s,
        strings(&["in/B.png", "in/a.jpg", "in/a.png", "in/a.png", "in/c.png"])
    );
}

#[test]
fn sort_paths_matches_path_order() {
    let v = strings(&["d/x y.png", "d/x.png", "d/x-1.png", "d/X.png", "d/é.png", "d/z"]);
    let s = sort_paths(&v);
    let mut expected = v.clone();
    expected.sort_by(|a, b| std::path::Path::new(a).cmp(std::path::Path::new(b)));
    assert_eq!(s, expected);
}

#[test]
fn balance_removes_by_draws() {
    let v = strings(&["a", "b", "c", "d"]);
    // 5 % 4 = 1 removes "b"; 7 % 3 = 1 removes "c"
    let r = balance_inputs_with(v, 2, &vec![5, 7]);
    assert_eq!(r, strings(&["a", "d"]));
}

#[test]
fn balance_duplicates_by_draws() {
    let v = strings(&["a", "b"]);
    // 3 % 2 = 1 copies "b"; 2 % 3 = 2 copies the copy "b"; 4 % 4 = 0 copies "a"
    let r = balance_inputs_with(v, 5, &vec![3, 2, 4]);
    assert_eq!(r, strings(&["a", "b", "b", "b", "a"]));
}

#[test]
fn balance_keeps_matching_inputs() {
    let v = strings(&["a", "b"]);
    assert_eq!(balance_inputs_with(v.clone(), 2, &vec![]), v);
    assert_eq!(balance_inputs(v.clone(), 2), v);
    assert_eq!(balance_inputs(vec![], 0), Vec::<String>::new());
}

#[test]
fn balance_at_random_drops_only_inputs() {
    let v = strings(&["a", "b", "c", "d", "e", "f"]);
    for _ in 0..20 {
        let r = balance_inputs(v.clone(), 3);
        assert_eq!(r.len(), 3);
        let rc = counts(&r);
        let vc = counts(&v);
        for (k, n) in rc {
            assert!(n <= vc[&k]);
        }
        // the kept inputs stay in their order
        let positions: Vec<usize> = r.iter().map(|x| v.iter().position(|y| y == x).unwrap()).collect();
        assert!(positions.windows(2).all(|w| w[0] < w[1]));
    }
}

#[test]
fn balance_at_random_fills_with_copies() {
    let v = strings(&["a", "b"]);
    for _ in 0..20 {
        let r = balance_inputs(v.clone(), 6);
        assert_eq!(r.len(), 6);
        assert_eq!(&r[..2], &v[..]);
        assert!(r.iter().all(|x| v.contains(x)));
    }
}

#[test]
fn plan_keeps_the_input_extension() {
    let inputs = strings(&["in/shot1.png", "in/shot2.jpg"]);
    let names = strings(&["first", "second.txt"]);
    let plan = plan_renames(&inputs, &names, &"out".to_string());
    assert_eq!(plan.failure, None);
    assert_eq!(
        plan.steps,
        vec![
            RenameStep {
                source: "in/shot1.png".to_string(),
                destination: "out/first.png".to_string()
            },
            RenameStep {
                source: "in/shot2.jpg".to_string(),
                destination: "out/second.jpg".to_string()
            },
        ]
    );
}

#[test]
fn plan_stops_at_input_without_extension() {
    let inputs = strings(&["in/a.png", "in/noext", "in/c.png"]);
    let names = strings(&["x", "y", "z"]);
    let plan = plan_renames(&inputs, &names, &"out/".to_string());
    assert_eq!(plan.failure, Some(PCHStdError::NoExtension));
    assert_eq!(
        plan.steps,
        vec![RenameStep {
            source: "in/a.png".to_string(),
            destination: "out/x.png".to_string()
        }]
    );
}

#[test]
fn plan_hidden_file_has_no_extension() {
    let plan = plan_renames(&strings(&["in/.hidden"]), &strings(&["x"]), &"out".to_string());
    assert_eq!(plan.failure, Some(PCHStdError::NoExtension));
    assert!(plan.steps.is_empty());
}

#[test]
fn plan_goes_as_far_as_the_shorter_list() {
    let plan = plan_renames(
        &strings(&["in/a.png", "in/b.png"]),
        &strings(&["x"]),
        &"out".to_string(),
    );
    assert_eq!(plan.failure, None);
    assert_eq!(plan.steps.len(), 1);
}

#[test]
fn prepare_sorts_and_names_every_file() {
    let inputs = strings(&["in/b.png", "in/a.jpg", "in/c.gif"]);
    let names = strings(&["one", "two", "three"]);
    let plan = prepare_renames(&inputs, &names, &"out".to_string());
    assert_eq!(plan.failure, None);
    assert_eq!(
        plan.steps,
        vec![
            RenameStep {
                source: "in/a.jpg".to_string(),
                destination: "out/one.jpg".to_string()
            },
            RenameStep {
                source: "in/b.png".to_string(),
                destination: "out/two.png".to_string()
            },
            RenameStep {
                source: "in/c.gif".to_string(),
                destination: "out/three.gif".to_string()
            },
        ]
    );
}

#[test]
fn prepare_fills_every_name() {
    let inputs = strings(&["in/b.png", "in/a.png"]);
    let names = strings(&["1", "2", "3", "4", "5"]);
    let plan = prepare_renames(&inputs, &names, &"out".to_string());
    assert_eq!(plan.failure, None);
    assert_eq!(plan.steps.len(), 5);
    assert_eq!(plan.steps[0].source, "in/a.png");
    assert_eq!(plan.steps[1].source, "in/b.png");
    for (i, step) in plan.steps.iter().enumerate() {
        assert!(inputs.contains(&step.source));
        assert_eq!(step.destination, format!("out/{}.png", i + 1));
    }
}

#[test]
fn prepare_with_nothing_to_do() {
    let plan = prepare_renames(&vec![], &vec![], &"out".to_string());
    assert_eq!(plan.failure, None);
    assert!(plan.steps.is_empty());
}

#[test]
fn compress_actions() {
    assert_eq!(compress_action(&None), CompressAction::Nothing);
    assert_eq!(
        compress_action(&Some(CompressType::Zip)),
        CompressAction::Zip
    );
    assert_eq!(
        compress_action(&Some(CompressType::_7Zip)),
        CompressAction::SevenZip
    );
    assert_eq!(
        compress_action(&Some(CompressType::NoCompress)),
        CompressAction::NoCompression
    );
}

#[test]
fn walk_lists_folders_first_come_first_served() {
    let mut walk = DirWalk::new("root".to_string());
    assert_eq!(next_dir(&mut walk), Some("root".to_string()));
    walk_step(&mut walk, "root/a".to_string(), true);
    walk_step(&mut walk, "root/x.png".to_string(), false);
    walk_step(&mut walk, "root/b".to_string(), true);
    assert_eq!(next_dir(&mut walk), Some("root/a".to_string()));
    walk_step(&mut walk, "root/a/y.png".to_string(), false);
    walk_step(&mut walk, "root/a/c".to_string(), true);
    assert_eq!(next_dir(&mut walk), Some("root/b".to_string()));
    assert_eq!(next_dir(&mut walk), Some("root/a/c".to_string()));
    assert_eq!(next_dir(&mut walk), None);
    assert_eq!(next_dir(&mut walk), None);
    assert_eq!(
        walk.files,
        strings(&["root/x.png", "root/a/y.png"])
    );
}
