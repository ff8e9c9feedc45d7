use synaptclip::commands::{remove_clip_from_history, remove_clips_from_history, restored_by_undo};
use synaptclip::dsa::persistent_list::{PersistentList, PersistentListIter, VersionHistory, MAX_VERSIONS};
use synaptclip::dsa::union_find::{should_group, ClipGroupManager, UnionFind};
use synaptclip::dsa::skip_list::{random_level, SkipList, MAX_LEVEL};
use synaptclip::storage::Clip;

fn mk_clip(id: i64, content: &str, source_app: Option<&str>) -> Clip {
    Clip {
        id,
        content: content.to_string(),
        content_type: "text".to_string(),
        created_at: "2026-04-23T00:00:00Z".to_string(),
        source_app: source_app.map(str::to_string),
        pinned: false,
        deleted_at: None,
        was_compressed: false,
        original_size: content.len() as i64,
        compressed_size: content.len() as i64,
        category: None,
        sender_name: None,
        sender_peer_id: None,
    }
}

#[test]
fn prepend_adds_to_front_without_mutating_original() {
    let a: PersistentList<i32> = PersistentList::new();
    let b = a.prepend(1);
    let c = b.prepend(2);
    assert_eq!(a.len(), 0);
    assert_eq!(b.len(), 1);
    assert_eq!(c.len(), 2);
    assert_eq!(b.get(0), Some(&1));
    assert_eq!(c.get(0), Some(&2));
    assert_eq!(c.get(1), Some(&1));
}

#[test]
fn remove_at_produces_new_version_without_element() {
    let v = PersistentList::new().prepend(3).prepend(2).prepend(1);
    let r = v.remove_at(1);
    let original: Vec<i32> = v.iter().into_iter().copied().collect();
    let removed: Vec<i32> = r.iter().into_iter().copied().collect();
    assert_eq!(original, vec![1, 2, 3]);
    assert_eq!(removed, vec![1, 3]);
}

#[test]
fn remove_at_out_of_bounds_returns_clone() {
    let v = PersistentList::new().prepend(1);
    let r = v.remove_at(5);
    assert_eq!(r.len(), v.len());
}

#[test]
fn version_history_undo_returns_previous_version() {
    let v0 = PersistentList::new();
    let mut h = VersionHistory::new(v0.clone());
    let v1 = v0.prepend(1);
    h.push(v1.clone());
    let v2 = v1.prepend(2);
    h.push(v2);
    assert_eq!(h.current().len(), 2);
    let undone = h.undo().expect("undo should return previous version");
    assert_eq!(undone.len(), 1);
}

#[test]
fn version_history_undo_at_oldest_returns_none() {
    let mut h: VersionHistory<i32> = VersionHistory::new(PersistentList::new());
    assert!(h.undo().is_none());
    assert!(!h.can_undo());
}

#[test]
fn version_history_caps_at_fifty_versions() {
    let mut h: VersionHistory<i32> = VersionHistory::new(PersistentList::new());
    for i in 0..60 {
        let next = h.current().prepend(i);
        h.push(next);
    }
    assert_eq!(h.current().len(), 60);
    let mut undo_count = 0;
    while h.undo().is_some() {
        undo_count += 1;
    }
    assert_eq!(undo_count, MAX_VERSIONS - 1);
}

#[test]
fn undo_after_push_restores_the_version_pushed_over() {
    let base = PersistentList::new().prepend(7);
    let mut h = VersionHistory::new(base.clone());
    h.push(base.prepend(8));
    let back = h.undo().expect("one version back");
    let items: Vec<i32> = back.iter().into_iter().copied().collect();
    assert_eq!(items, vec![7]);
    assert!(!h.can_undo());
}

#[test]
fn find_returns_self_for_singleton() {
    let mut uf = UnionFind::new(5);
    assert_eq!(uf.find(0), 0);
    assert_eq!(uf.find(4), 4);
}

#[test]
fn union_connects_two_elements() {
    let mut uf = UnionFind::new(3);
    assert!(uf.union(0, 1));
    assert_eq!(uf.find(0), uf.find(1));
    assert!(!uf.union(0, 1));
}

#[test]
fn union_by_rank_higher_rank_wins() {
    let mut uf = UnionFind::new(4);
    uf.union(0, 1);
    uf.union(2, 3);
    uf.union(0, 2);
    let root = uf.find(0);
    assert_eq!(uf.find(1), root);
    assert_eq!(uf.find(2), root);
    assert_eq!(uf.find(3), root);
    assert_eq!(uf.count, 1);
}

#[test]
fn path_compression_flattens_chain() {
    let mut uf = UnionFind::new(5);
    uf.union(0, 1);
    uf.union(2, 3);
    uf.union(0, 2);
    uf.union(0, 4);
    let root = uf.find(4);
    uf.find(3);
    for i in 0..5 {
        assert_eq!(uf.parent(i), root);
    }
}

#[test]
fn connected_reflects_union_state() {
    let mut uf = UnionFind::new(3);
    assert!(!uf.connected(0, 1));
    uf.union(0, 1);
    assert!(uf.connected(0, 1));
    assert!(!uf.connected(0, 2));
}

#[test]
fn set_size_counts_merged_members() {
    let mut uf = UnionFind::new(5);
    uf.union(0, 1);
    uf.union(1, 2);
    assert_eq!(uf.set_size(2), 3);
    assert_eq!(uf.set_size(4), 1);
    assert_eq!(uf.count, 3);
    let k = uf.add_element();
    assert_eq!(k, 5);
    assert_eq!(uf.count, 4);
}

#[test]
fn clip_group_manager_roundtrip() {
    let mut m = ClipGroupManager::new();
    m.add_clip(10);
    m.add_clip(20);
    m.add_clip(30);
    m.group_clips(10, 20);
    let g = m.get_group(20);
    assert!(g.contains(&10) && g.contains(&20));
    assert!(!g.contains(&30));
    assert!(m.same_group(10, 20));
    assert!(!m.same_group(10, 30));
}

#[test]
fn all_groups_lists_only_groups_of_two_or_more() {
    let mut m = ClipGroupManager::new();
    for id in [1, 2, 3, 4] {
        m.add_clip(id);
    }
    m.group_clips(1, 3);
    let groups = m.all_groups();
    assert_eq!(groups, vec![vec![1, 3]]);
    assert_eq!(m.group_count(), 3);
    m.remove_clip(3);
    assert!(!m.get_group(1).contains(&3));
    assert!(m.get_group(3).is_empty());
}

#[test]
fn removing_a_clip_keeps_the_other_groups() {
    let mut m = ClipGroupManager::new();
    m.add_clip(10);
    m.add_clip(20);
    m.add_clip(30);
    m.group_clips(20, 30);
    m.remove_clip(10);
    let mut g = m.get_group(20);
    g.sort();
    assert_eq!(g, vec![20, 30]);
    assert!(m.get_group(10).is_empty());
    assert_eq!(m.all_groups(), vec![vec![20, 30]]);
    assert!(!m.same_group(10, 20));
}

#[test]
fn group_count_covers_only_tracked_clips() {
    let mut m = ClipGroupManager::new();
    m.add_clip(1);
    m.add_clip(2);
    assert_eq!(m.group_count(), 2);
    m.remove_clip(2);
    assert_eq!(m.group_count(), 1);
    m.remove_clip(1);
    assert_eq!(m.group_count(), 0);
}

#[test]
fn should_group_same_source_app_returns_true() {
    let a = mk_clip(1, "abc", Some("firefox"));
    let b = mk_clip(2, "zzz", Some("firefox"));
    assert!(should_group(&a, &b));
}

#[test]
fn should_group_different_source_app_returns_false() {
    let a = mk_clip(1, "short", Some("firefox"));
    let b = mk_clip(2, "other", Some("terminal"));
    assert!(!should_group(&a, &b));
}

#[test]
fn should_group_shared_prefix_returns_true() {
    let prefix = "https://example.com/path/to/resource";
    let a = mk_clip(1, &format!("{prefix}/first"), None);
    let b = mk_clip(2, &format!("{prefix}/second"), None);
    assert!(should_group(&a, &b));
}

#[test]
fn should_group_short_shared_prefix_returns_false() {
    let a = mk_clip(1, "hello world", None);
    let b = mk_clip(2, "hello there", None);
    assert!(!should_group(&a, &b));
}

#[test]
fn list_iterator_yields_front_first() {
    let list = PersistentList::new().prepend(3).prepend(2).prepend(1);
    let mut it = PersistentListIter::new(&list);
    assert_eq!(it.next(), Some(&1));
    assert_eq!(it.next(), Some(&2));
    assert_eq!(it.next(), Some(&3));
    assert_eq!(it.next(), None);
    assert_eq!(it.next(), None);
}

fn clip_list(ids: &[i64]) -> PersistentList<Clip> {
    let mut list = PersistentList::new();
    for &id in ids.iter().rev() {
        list = list.prepend(mk_clip(id, "text", None));
    }
    list
}

fn current_ids(history: &VersionHistory<Clip>) -> Vec<i64> {
    history.current().iter().iter().map(|c| c.id).collect()
}

#[test]
fn deleting_then_undoing_restores_the_clip() {
    let mut history = VersionHistory::new(clip_list(&[1, 2, 3]));
    remove_clip_from_history(&mut history, 2);
    assert_eq!(current_ids(&history), vec![1, 3]);
    remove_clip_from_history(&mut history, 42);
    assert_eq!(current_ids(&history), vec![1, 3]);
    assert_eq!(restored_by_undo(&mut history), Some(2));
    assert_eq!(current_ids(&history), vec![1, 2, 3]);
    assert_eq!(restored_by_undo(&mut history), None);
}

#[test]
fn bulk_deletion_pushes_one_version_per_deleted_clip() {
    let mut history = VersionHistory::new(clip_list(&[5, 6, 7, 8]));
    remove_clips_from_history(&mut history, &[6, 9, 8]);
    assert_eq!(current_ids(&history), vec![5, 7]);
    assert_eq!(restored_by_undo(&mut history), Some(8));
    assert_eq!(restored_by_undo(&mut history), Some(6));
    assert_eq!(current_ids(&history), vec![5, 6, 7, 8]);
}

#[test]
fn new_clips_join_the_recent_clips_they_belong_with() {
    let mut mgr = ClipGroupManager::new();
    let clip = mk_clip(10, "fresh", Some("editor"));
    let recent = vec![
        mk_clip(10, "fresh", Some("editor")),
        mk_clip(11, "other", Some("editor")),
        mk_clip(12, "unrelated", Some("browser")),
        mk_clip(13, "also unrelated", None),
    ];
    synaptclip::capture::group_with_recent(&mut mgr, &clip, &recent);
    assert!(mgr.same_group(10, 11));
    assert!(!mgr.same_group(10, 12));
    assert!(!mgr.same_group(10, 13));
    assert_eq!(mgr.get_group(10), vec![10, 11]);
}

#[test]
fn startup_grouping_links_every_matching_pair() {
    let mut mgr = ClipGroupManager::new();
    let shared = "a".repeat(35);
    let clips = vec![
        mk_clip(1, &format!("{shared}-one"), None),
        mk_clip(2, "short", Some("term")),
        mk_clip(3, &format!("{shared}-two"), None),
        mk_clip(4, "elsewhere", Some("term")),
        mk_clip(5, "alone", None),
    ];
    synaptclip::capture::group_all(&mut mgr, &clips);
    assert!(mgr.same_group(1, 3));
    assert!(mgr.same_group(2, 4));
    assert!(!mgr.same_group(1, 2));
    assert_eq!(mgr.get_group(5), vec![5]);
}

#[test]
fn stored_clips_are_undoable_versions() {
    let mut history = VersionHistory::new(clip_list(&[1]));
    synaptclip::capture::record_in_history(&mut history, mk_clip(2, "new", None));
    assert_eq!(current_ids(&history), vec![2, 1]);
    assert_eq!(restored_by_undo(&mut history), None);
    assert_eq!(current_ids(&history), vec![1]);
}

#[test]
fn union_adds_set_sizes() {
    let mut uf = UnionFind::new(6);
    uf.union(0, 1);
    uf.union(2, 3);
    uf.union(3, 4);
    assert!(uf.union(1, 4));
    assert_eq!(uf.set_size(0), 5);
    assert_eq!(uf.set_size(5), 1);
}

#[test]
fn all_groups_are_disjoint() {
    let mut m = ClipGroupManager::new();
    for id in 1..=6 {
        m.add_clip(id);
    }
    m.group_clips(1, 2);
    m.group_clips(3, 4);
    m.group_clips(4, 5);
    let groups = m.all_groups();
    assert_eq!(groups.len(), 2);
    for (i, g) in groups.iter().enumerate() {
        for (j, h) in groups.iter().enumerate() {
            if i != j {
                assert!(g.iter().all(|x| !h.contains(x)));
            }
        }
    }
}

#[test]
fn startup_grouping_follows_chains() {
    let mut mgr = ClipGroupManager::new();
    let shared = "q".repeat(31);
    let clips = vec![
        mk_clip(1, &format!("{shared}-first"), Some("notes")),
        mk_clip(2, "unrelated text", Some("notes")),
        mk_clip(3, &format!("{shared}-third"), None),
        mk_clip(4, "stand-alone", Some("mail")),
    ];
    synaptclip::capture::group_all(&mut mgr, &clips);
    assert!(mgr.same_group(2, 3));
    assert!(!mgr.same_group(3, 4));
    assert_eq!(mgr.group_count(), 2);
}

/// The key that orders like a finite `f64` score.
fn key(score: f64) -> u64 {
    let bits = score.to_bits();
    if bits >> 63 == 0 {
        bits | (1u64 << 63)
    } else {
        !bits
    }
}

#[test]
fn insert_single_top_n_returns_it() {
    let mut sl = SkipList::new();
    sl.insert(key(1.0), 42);
    assert_eq!(sl.top_n(1), vec![42]);
}

#[test]
fn insert_multiple_top_n_descending_order() {
    let mut sl = SkipList::new();
    sl.insert(key(1.0), 1);
    sl.insert(key(3.0), 2);
    sl.insert(key(2.0), 3);
    let top = sl.top_n(3);
    assert_eq!(top[0], 2);
    assert_eq!(top[1], 3);
    assert_eq!(top[2], 1);
}

#[test]
fn remove_existing_returns_true() {
    let mut sl = SkipList::new();
    sl.insert(key(1.0), 10);
    assert!(sl.remove(10));
    assert!(!sl.top_n(10).contains(&10));
}

#[test]
fn remove_nonexistent_returns_false() {
    let mut sl = SkipList::new();
    sl.insert(key(1.0), 10);
    assert!(!sl.remove(99));
}

#[test]
fn update_score_moves_entry() {
    let mut sl = SkipList::new();
    sl.insert(key(1.0), 1);
    sl.insert(key(2.0), 2);
    sl.update_score(1, key(3.0));
    let top = sl.top_n(2);
    assert_eq!(top[0], 1);
}

#[test]
fn pinned_clip_appears_above_unpinned_same_recency() {
    let mut sl = SkipList::new();
    let base = 0.5f64;
    sl.insert(key(base + 0.5), 1);
    sl.insert(key(base), 2);
    let top = sl.top_n(2);
    assert_eq!(top[0], 1);
}

#[test]
fn random_level_in_bounds() {
    for _ in 0..200 {
        let l = random_level();
        assert!((1..=MAX_LEVEL).contains(&l));
    }
}

#[test]
fn iter_ranked_all_descending() {
    let mut sl = SkipList::new();
    sl.insert(key(3.0), 1);
    sl.insert(key(1.0), 2);
    sl.insert(key(2.0), 3);
    let all = sl.iter_ranked();
    assert_eq!(all, vec![1, 3, 2]);
}

#[test]
fn len_and_is_empty() {
    let mut sl = SkipList::new();
    assert!(sl.is_empty());
    sl.insert(key(1.0), 1);
    assert_eq!(sl.len(), 1);
    sl.remove(1);
    assert!(sl.is_empty());
}

#[test]
fn insert_duplicate_clip_id_updates_score() {
    let mut sl = SkipList::new();
    sl.insert(key(1.0), 5);
    sl.insert(key(4.0), 5);
    assert_eq!(sl.len(), 1);
    assert_eq!(sl.top_n(1), vec![5]);
}

#[test]
fn skip_list_keeps_rank_order_through_many_changes() {
    let mut sl = SkipList::new();
    for id in 0..300i64 {
        sl.insert(((id * 7919) % 1000) as u64, id);
    }
    for id in (0..300i64).step_by(3) {
        assert!(sl.remove(id));
    }
    for id in (1..300i64).step_by(5) {
        sl.update_score(id, 5000 + id as u64);
    }
    let ranked = sl.iter_ranked();
    let mut expected: Vec<(u64, i64)> = (0..300i64)
        .filter(|id| id % 3 != 0 || id % 5 == 1)
        .map(|id| {
            let k = if id % 5 == 1 { 5000 + id as u64 } else { ((id * 7919) % 1000) as u64 };
            (k, id)
        })
        .collect();
    expected.sort_by(|a, b| b.cmp(a));
    assert_eq!(ranked, expected.iter().map(|e| e.1).collect::<Vec<_>>());
    assert_eq!(sl.len(), expected.len());
    assert_eq!(sl.top_n(3), expected.iter().take(3).map(|e| e.1).collect::<Vec<_>>());
    assert!(!sl.remove(3));
    assert!(sl.remove(6));
}

#[test]
fn equal_keys_rank_by_higher_id_first() {
    let mut sl = SkipList::new();
    sl.insert(7, 1);
    sl.insert(7, 3);
    sl.insert(7, 2);
    assert_eq!(sl.iter_ranked(), vec![3, 2, 1]);
    assert_eq!(sl.top_n(10), vec![3, 2, 1]);
}

#[test]
fn push_makes_undo_possible() {
    let mut h: VersionHistory<i32> = VersionHistory::new(PersistentList::new());
    assert!(!h.can_undo());
    h.push(PersistentList::new().prepend(1));
    assert!(h.can_undo());
}

#[test]
fn each_group_is_the_group_of_its_members() {
    let mut m = ClipGroupManager::new();
    for id in [5, 6, 7, 8, 9] {
        m.add_clip(id);
    }
    m.group_clips(5, 7);
    m.group_clips(7, 9);
    m.group_clips(6, 8);
    let groups = m.all_groups();
    for g in &groups {
        for id in g {
            let mut mine = m.get_group(*id);
            mine.sort();
            let mut want = g.clone();
            want.sort();
            assert_eq!(mine, want);
        }
    }
}
