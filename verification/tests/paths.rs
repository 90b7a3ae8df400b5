use gd::order::{path_relation, text_relation, Relation};
use gd::path::{
    components, depth_below, display_with_tilde, expand_tilde, file_name, join_path,
    path_starts_with, same_path, strip_prefix,
};

#[test]
fn tilde_display() {
    if let Some(home) = dirs::home_dir() {
        let home = home.to_str().unwrap().to_string();
        let p = join_path(&home, "foo/bar");
        assert_eq!(display_with_tilde(&p, Some(&home)), "~/foo/bar");
    }
}

#[test]
fn non_home_path_unchanged() {
    let home = dirs::home_dir().map(|h| h.to_str().unwrap().to_string());
    assert_eq!(display_with_tilde("/tmp/something", home.as_deref()), "/tmp/something");
}

#[test]
fn home_itself_is_a_tilde() {
    assert_eq!(display_with_tilde("/home/u", Some("/home/u")), "~/");
    assert_eq!(display_with_tilde("/home/user2", Some("/home/u")), "/home/user2");
    assert_eq!(display_with_tilde("/home/u/x", None), "/home/u/x");
}

#[test]
fn components_agree_with_the_standard_library() {
    let samples = [
        "", "/", "//", "/a", "a", "a/", "a//b", "./a", "a/./b", "a/../b", "/./a", "..", ".",
        "/a/b/c/", "文件/dev", "a/.", "./.", "/..",
    ];
    for s in samples {
        let ours = components(s);
        let theirs: Vec<String> = std::path::Path::new(s)
            .components()
            .map(|c| c.as_os_str().to_str().unwrap().to_string())
            .collect();
        assert_eq!(ours, theirs, "{s:?}");
        assert_eq!(
            file_name(s),
            std::path::Path::new(s).file_name().map(|n| n.to_str().unwrap().to_string()),
            "{s:?}"
        );
        for t in samples {
            let (a, b) = (std::path::Path::new(s), std::path::Path::new(t));
            assert_eq!(path_starts_with(s, t), a.starts_with(b), "{s:?} {t:?}");
            assert_eq!(same_path(s, t), a == b, "{s:?} {t:?}");
            assert_eq!(
                strip_prefix(s, t),
                a.strip_prefix(b).ok().map(|p| p.to_str().unwrap().to_string()),
                "{s:?} {t:?}"
            );
            assert_eq!(join_path(s, t), a.join(b).to_str().unwrap(), "{s:?} {t:?}");
            let relation = match a.cmp(b) {
                std::cmp::Ordering::Less => Relation::Before,
                std::cmp::Ordering::Equal => Relation::Same,
                std::cmp::Ordering::Greater => Relation::After,
            };
            assert_eq!(path_relation(s, t), relation, "{s:?} {t:?}");
        }
    }
}

#[test]
fn depth_counts_components() {
    assert_eq!(depth_below("/home/u/a/b", "/home/u"), Some(2));
    assert_eq!(depth_below("/home/u", "/home/u"), Some(0));
    assert_eq!(depth_below("/tmp", "/home/u"), None);
}

#[test]
fn tilde_is_expanded_at_the_front_only() {
    assert_eq!(expand_tilde("~/x", Some("/home/u")), "/home/u/x");
    assert_eq!(expand_tilde("/a/~/x", Some("/home/u")), "/a/~/x");
    assert_eq!(expand_tilde("~x", Some("/home/u")), "~x");
    assert_eq!(expand_tilde("~/x", None), "~/x");
}

#[test]
fn texts_are_ordered_as_bytes_are() {
    let samples = ["", "a", "aa", "b", "é", "文", "z", "😀"];
    for s in samples {
        for t in samples {
            let relation = match s.as_bytes().cmp(t.as_bytes()) {
                std::cmp::Ordering::Less => Relation::Before,
                std::cmp::Ordering::Equal => Relation::Same,
                std::cmp::Ordering::Greater => Relation::After,
            };
            assert_eq!(text_relation(s, t), relation, "{s:?} {t:?}");
        }
    }
}
