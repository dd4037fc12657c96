use sizes::config::EntryKind;
use sizes::top::{entry_less, listed_first, text_less, TopEntry, TopN};

fn entry(size: u64, kind: EntryKind, path: &str) -> TopEntry {
    TopEntry { size_bytes: size, kind, path: path.into() }
}

#[test]
fn keeps_largest_entries() {
    let mut top = TopN::new(2);
    top.push(TopEntry {
        size_bytes: 10,
        kind: EntryKind::File,
        path: "a".into(),
    });
    top.push(TopEntry {
        size_bytes: 30,
        kind: EntryKind::File,
        path: "b".into(),
    });
    top.push(TopEntry {
        size_bytes: 20,
        kind: EntryKind::Directory,
        path: "c".into(),
    });
    let values = top.sorted_desc();
    assert_eq!(values.iter().map(|e| e.size_bytes).collect::<Vec<_>>(), vec![30, 20]);
}

#[test]
fn zero_limit_keeps_nothing() {
    let mut top = TopN::new(0);
    top.push(entry(5, EntryKind::File, "x"));
    assert!(top.sorted_desc().is_empty());
}

#[test]
fn ties_order_by_path_then_kind() {
    let mut top = TopN::new(10);
    top.push(entry(7, EntryKind::Directory, "b"));
    top.push(entry(7, EntryKind::File, "b"));
    top.push(entry(7, EntryKind::File, "a"));
    top.push(entry(9, EntryKind::File, "z"));
    let got: Vec<(u64, EntryKind, String)> =
        top.sorted_desc().into_iter().map(|e| (e.size_bytes, e.kind, e.path)).collect();
    assert_eq!(
        got,
        vec![
            (9, EntryKind::File, "z".to_string()),
            (7, EntryKind::File, "a".to_string()),
            (7, EntryKind::File, "b".to_string()),
            (7, EntryKind::Directory, "b".to_string()),
        ]
    );
}

#[test]
fn smallest_leaves_by_entry_order() {
    // same size: File sorts before Directory, so the file leaves first
    let mut top = TopN::new(1);
    top.push(entry(5, EntryKind::File, "z"));
    top.push(entry(5, EntryKind::Directory, "a"));
    let got = top.sorted_desc();
    assert_eq!(got.len(), 1);
    assert_eq!(got[0].kind, EntryKind::Directory);
    // same size and kind: the earlier path leaves
    let mut top = TopN::new(1);
    top.push(entry(5, EntryKind::File, "b"));
    top.push(entry(5, EntryKind::File, "a"));
    assert_eq!(top.sorted_desc()[0].path, "b");
}

#[test]
fn keeps_the_k_largest_of_many() {
    let mut top = TopN::new(5);
    let mut x: u64 = 12345;
    let mut all = Vec::new();
    for i in 0..500 {
        x = x.wrapping_mul(6364136223846793005).wrapping_add(1442695040888963407);
        let size = (x >> 40) % 1000;
        top.push(entry(size, EntryKind::File, &format!("p{i}")));
        all.push(size);
    }
    all.sort_unstable_by(|a, b| b.cmp(a));
    let got: Vec<u64> = top.sorted_desc().iter().map(|e| e.size_bytes).collect();
    assert_eq!(got, all[..5].to_vec());
}

#[test]
fn entry_order_matches_derived_ord() {
    let paths = ["", "a", "ab", "b", "é", "z", "Ä", "日本", "a/b", "a-b"];
    let mut entries = Vec::new();
    for size in [0u64, 1, 7] {
        for kind in [EntryKind::File, EntryKind::Directory] {
            for p in paths {
                entries.push(entry(size, kind, p));
            }
        }
    }
    for a in &entries {
        for b in &entries {
            assert_eq!(entry_less(a, b), a < b);
            assert_eq!(text_less(&a.path, &b.path), a.path < b.path);
            let listed = b.size_bytes.cmp(&a.size_bytes)
                .then_with(|| a.path.cmp(&b.path))
                .then_with(|| a.kind.cmp(&b.kind));
            assert_eq!(listed_first(a, b), listed != std::cmp::Ordering::Greater);
        }
    }
}

#[test]
fn push_order_does_not_matter() {
    let entries = vec![
        entry(5, EntryKind::File, "a"),
        entry(9, EntryKind::Directory, "b"),
        entry(5, EntryKind::Directory, "a"),
        entry(1, EntryKind::File, "c"),
        entry(9, EntryKind::File, "b"),
        entry(7, EntryKind::File, "d"),
    ];
    for limit in [0usize, 1, 3, 6, 10] {
        let mut forward = TopN::new(limit);
        for e in entries.iter() {
            forward.push(e.clone());
        }
        let mut backward = TopN::new(limit);
        for e in entries.iter().rev() {
            backward.push(e.clone());
        }
        let mut shuffled = TopN::new(limit);
        for i in [3usize, 0, 5, 2, 4, 1] {
            shuffled.push(entries[i].clone());
        }
        let listed = forward.sorted_desc();
        assert_eq!(listed.len(), limit.min(entries.len()));
        assert_eq!(listed, backward.sorted_desc());
        assert_eq!(listed, shuffled.sorted_desc());
    }
}
