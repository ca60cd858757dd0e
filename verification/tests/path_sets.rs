use minigrep::pathset::PathSet;

#[test]
fn a_new_set_holds_nothing() {
    let set = PathSet::new();
    assert!(!set.contains("a.txt"));
    assert!(set.into_vec().is_empty());
}

#[test]
fn paths_are_kept_in_the_order_in_which_they_came() {
    let mut set = PathSet::new();
    set.insert("b.txt", "b.txt");
    set.insert("a.txt", "a.txt");
    set.insert("c.txt", "c.txt");
    assert!(set.contains("a.txt"));
    assert!(set.contains("b.txt"));
    assert!(set.contains("c.txt"));
    assert!(!set.contains("d.txt"));
    assert_eq!(
        set.into_vec(),
        vec!["b.txt".to_string(), "a.txt".to_string(), "c.txt".to_string()]
    );
}

#[test]
fn a_path_is_kept_once() {
    let mut set = PathSet::new();
    set.insert("a.txt", "a.txt");
    set.insert("b.txt", "b.txt");
    set.insert("a.txt", "a.txt");
    set.insert("a.txt", "a.txt");
    set.insert("b.txt", "b.txt");
    assert_eq!(set.into_vec(), vec!["a.txt".to_string(), "b.txt".to_string()]);
}

#[test]
fn paths_that_differ_in_one_character_are_different() {
    let mut set = PathSet::new();
    set.insert("dir/a.txt", "dir/a.txt");
    set.insert("dir/A.txt", "dir/A.txt");
    set.insert("dir/a.txt ", "dir/a.txt ");
    set.insert("", "");
    set.insert("dir/a.txt", "dir/a.txt");
    assert!(set.contains(""));
    assert!(!set.contains("dir/a.tx"));
    assert_eq!(
        set.into_vec(),
        vec![
            "dir/a.txt".to_string(),
            "dir/A.txt".to_string(),
            "dir/a.txt ".to_string(),
            "".to_string(),
        ]
    );
}

#[test]
fn many_paths_are_kept_apart() {
    let mut set = PathSet::new();
    for round in 0..3 {
        for number in 0..2000 {
            let path = format!("dir/sub{}/file{}.txt", number % 7, number);
            set.insert(&path, &path);
        }
        assert!(set.contains("dir/sub3/file1011.txt"));
        assert!(!set.contains(&format!("dir/sub0/file{}.txt", 2000 + round)));
    }
    let files = set.into_vec();
    assert_eq!(files.len(), 2000);
    assert_eq!(files[0], "dir/sub0/file0.txt");
    assert_eq!(files[1999], "dir/sub4/file1999.txt");
}

#[test]
fn a_file_is_kept_under_the_path_by_which_it_first_came() {
    let mut set = PathSet::new();
    set.insert("/home/d/f", "d/f");
    set.insert("/home/d/g", "./d/g");
    set.insert("/home/d/f", "./d/f");
    set.insert("/home/d/g", "d/g");
    assert!(set.contains("/home/d/f"));
    assert!(!set.contains("d/f"));
    assert_eq!(set.into_vec(), vec!["d/f".to_string(), "./d/g".to_string()]);
}
