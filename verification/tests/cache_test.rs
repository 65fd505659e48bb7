use simple_geo_server::data_source::{disk_lookup, memory_lookup, store_tile};
use simple_geo_server::resample::ResamplingMode;
use simple_geo_server::table::Table;
use simple_geo_server::tile_cache::{
    cache_stats, content_windows, disk_excess, disk_write_checks, file_content_hash,
    files_to_evict, get_content_hash, path_hash, record_l2_hit, record_l3_hit, record_miss,
    disk_cache_size_bytes, set_disk_cache_dir, set_disk_cache_max_bytes, set_l2_cache_size_mb,
    tile_cache_path,
    CacheSettings, CacheStats, FileWindows, MemCache, TileCacheKey,
};
use std::hash::{Hash, Hasher};

fn key(x: u32) -> TileCacheKey {
    TileCacheKey::new("layer", 3, x, 1, ResamplingMode::Bilinear)
}

#[test]
fn keys_hold_what_they_are_made_of() {
    let png = TileCacheKey::new("abc", 1, 2, 3, ResamplingMode::Lanczos3);
    assert_eq!((png.layer_hash.as_str(), png.z, png.x, png.y), ("abc", 1, 2, 3));
    assert_eq!((png.resampling, png.format), (3, 0));
    let webp = TileCacheKey::new_webp("abc", 1, 2, 3, ResamplingMode::Lanczos3);
    assert_eq!(webp.format, 1);
    assert!(!png.same(&webp));
    assert!(png.same(&TileCacheKey::new("abc", 1, 2, 3, ResamplingMode::Lanczos3)));
}

#[test]
fn a_stored_tile_is_found() {
    let mut cache = MemCache::new(1);
    cache.insert(key(1), vec![1, 2, 3]);
    assert_eq!(cache.get(&key(1)), Some(&vec![1, 2, 3]));
    assert_eq!(cache.get(&key(2)), None);
    assert_eq!(cache.len(), 1);
    let size = 3 + std::mem::size_of::<TileCacheKey>() as u64;
    assert_eq!(cache.size_bytes(), size);
    cache.clear();
    assert_eq!((cache.len(), cache.size_bytes()), (0, 0));
}

#[test]
fn the_tile_that_was_not_used_leaves_first() {
    let mut cache = MemCache::new(1);
    let big = vec![0u8; 400 * 1024];
    cache.insert(key(1), big.clone());
    cache.insert(key(2), big.clone());
    assert!(cache.get(&key(1)).is_some());
    cache.insert(key(3), big.clone());
    assert!(cache.get(&key(2)).is_none());
    assert!(cache.get(&key(1)).is_some());
    assert!(cache.get(&key(3)).is_some());
    assert_eq!(cache.len(), 2);
}

#[test]
fn a_tile_that_is_too_large_is_alone() {
    let mut cache = MemCache::new(1);
    cache.insert(key(1), vec![0; 10]);
    cache.insert(key(2), vec![0; 2 * 1024 * 1024]);
    assert_eq!(cache.len(), 1);
    assert!(cache.get(&key(2)).is_some());
    assert!(cache.size_bytes() > 1024 * 1024);
}

#[test]
fn a_replaced_tile_is_counted_on() {
    let mut cache = MemCache::new(1);
    let size = 4 + std::mem::size_of::<TileCacheKey>() as u64;
    cache.insert(key(1), vec![1; 4]);
    cache.insert(key(1), vec![2; 4]);
    assert_eq!(cache.len(), 1);
    assert_eq!(cache.get(&key(1)), Some(&vec![2; 4]));
    assert_eq!(cache.size_bytes(), 2 * size);
}

#[test]
fn lookups_are_counted() {
    let mut cache = MemCache::new(1);
    let mut stats = CacheStats::new();
    assert_eq!(memory_lookup(&mut cache, &mut stats, &key(1)), None);
    assert_eq!(cache_stats(&stats), (0, 0, 0));
    assert_eq!(disk_lookup(&mut cache, &mut stats, key(1), None), None);
    assert_eq!(cache_stats(&stats), (0, 0, 1));
    assert_eq!(disk_lookup(&mut cache, &mut stats, key(1), Some(vec![9])), Some(vec![9]));
    assert_eq!(memory_lookup(&mut cache, &mut stats, &key(1)), Some(vec![9]));
    assert_eq!(cache_stats(&stats), (1, 1, 1));
    assert_eq!(store_tile(&mut cache, key(2), vec![7, 7]), vec![7, 7]);
    assert_eq!(memory_lookup(&mut cache, &mut stats, &key(2)), Some(vec![7, 7]));
    record_l2_hit(&mut stats);
    record_l3_hit(&mut stats);
    record_miss(&mut stats);
    assert_eq!(cache_stats(&stats), (3, 2, 2));
}

#[test]
fn counters_start_over() {
    let mut stats = CacheStats { l2_hits: u64::MAX, l3_hits: 0, misses: 0 };
    record_l2_hit(&mut stats);
    assert_eq!(cache_stats(&stats), (0, 0, 0));
}

#[test]
fn windows_of_a_file() {
    assert_eq!(content_windows(0), (0, None));
    assert_eq!(content_windows(100), (100, None));
    assert_eq!(content_windows(4096), (4096, None));
    assert_eq!(content_windows(4097), (4096, Some(1)));
    assert_eq!(content_windows(10000), (4096, Some(5904)));
}

#[test]
fn content_hashes_are_those_of_std() {
    let head = vec![1u8, 2, 3];
    let w = FileWindows { file_size: 3, head: head.clone(), tail: None };
    let mut h = std::collections::hash_map::DefaultHasher::new();
    3u64.hash(&mut h);
    head.as_slice().hash(&mut h);
    assert_eq!(file_content_hash(&w), format!("{:016x}", h.finish()));

    let big = vec![7u8; 4096];
    let end = vec![8u8; 4096];
    let w = FileWindows { file_size: 10000, head: big.clone(), tail: Some(end.clone()) };
    let mut h = std::collections::hash_map::DefaultHasher::new();
    10000u64.hash(&mut h);
    big.as_slice().hash(&mut h);
    end.as_slice().hash(&mut h);
    assert_eq!(file_content_hash(&w), format!("{:016x}", h.finish()));

    let mut h = std::collections::hash_map::DefaultHasher::new();
    "dir/a.tif".hash(&mut h);
    assert_eq!(path_hash("dir/a.tif"), format!("{:016x}", h.finish()));
}

#[test]
fn a_known_hash_stays() {
    let mut known: Table<String> = Table::new();
    let w = FileWindows { file_size: 1, head: vec![1], tail: None };
    let v = FileWindows { file_size: 1, head: vec![2], tail: None };
    let unread = get_content_hash(&mut known, "a", None);
    assert_eq!(unread, path_hash("a"));
    let first = get_content_hash(&mut known, "a", Some(&w));
    assert_eq!(first, file_content_hash(&w));
    assert_eq!(get_content_hash(&mut known, "a", Some(&v)), first);
    assert_eq!(get_content_hash(&mut known, "a", None), first);
}

#[test]
fn paths_of_tiles() {
    let parts = tile_cache_path("00ff", 5, 6, 7, ResamplingMode::Bicubic, false);
    assert_eq!(parts, vec!["00ff_2", "5", "6", "7.png"]);
    let parts = tile_cache_path("00ff", 5, 6, 7, ResamplingMode::NearestNeighbor, true);
    assert_eq!(parts, vec!["00ff_0", "5", "6", "7.webp"]);
}

#[test]
fn settings_of_the_caches() {
    assert_eq!(disk_cache_size_bytes(Ok(77)), 77);
    assert_eq!(disk_cache_size_bytes(Err("gone".to_string())), 0);
    let mut s = CacheSettings::new();
    assert_eq!((s.l2_max_mb, s.disk_max_bytes), (512, 2 * 1024 * 1024 * 1024));
    set_l2_cache_size_mb(&mut s, 64);
    set_disk_cache_max_bytes(&mut s, 1000);
    assert_eq!((s.l2_max_mb, s.disk_max_bytes), (64, 1000));
    assert!(set_disk_cache_dir(&mut s, "/a"));
    assert!(!set_disk_cache_dir(&mut s, "/b"));
    assert_eq!(s.disk_dir.as_deref(), Some("/a"));
    let due: Vec<bool> = (0..12).map(|_| disk_write_checks(&mut s)).collect();
    assert_eq!(due.iter().filter(|d| **d).count(), 2);
    assert!(due[0] && due[10]);
}

#[test]
fn the_oldest_files_leave_the_disk() {
    assert_eq!(disk_excess(100, 100, 80), None);
    assert_eq!(disk_excess(150, 100, 80), Some(70));
    assert_eq!(disk_excess(150, 100, 200), Some(0));
    let mtimes = vec![30, 10, 20, 10];
    let sizes = vec![Some(5), Some(5), Some(5), None];
    assert_eq!(files_to_evict(&mtimes, &sizes, 7), (vec![1, 2], 10));
    assert_eq!(files_to_evict(&mtimes, &sizes, 100), (vec![1, 2, 0], 15));
    assert_eq!(files_to_evict(&mtimes, &sizes, 0), (vec![], 0));
}

#[test]
fn a_tile_is_found_after_lookups() {
    let mut cache = MemCache::new(1);
    cache.insert(key(1), vec![1]);
    cache.insert(key(2), vec![2, 2]);
    let before = (cache.len(), cache.size_bytes());
    for _ in 0..5 {
        assert_eq!(cache.get(&key(2)), Some(&vec![2, 2]));
        assert_eq!(cache.get(&key(9)), None);
        assert_eq!(cache.get(&key(1)), Some(&vec![1]));
    }
    assert_eq!((cache.len(), cache.size_bytes()), before);
}

#[test]
fn tiles_under_different_keys_are_counted_exactly() {
    let own = std::mem::size_of::<TileCacheKey>() as u64;
    let mut cache = MemCache::new(1);
    let mut sizes: Vec<u64> = Vec::new();
    for x in 0..9u32 {
        let len = 150_000 + 1000 * x as usize;
        cache.insert(key(x), vec![x as u8; len]);
        sizes.push(len as u64 + own);
        let held: Vec<u64> = sizes[sizes.len() - cache.len()..].to_vec();
        assert_eq!(cache.size_bytes(), held.iter().sum::<u64>());
        assert!(cache.size_bytes() <= 1024 * 1024);
        if cache.len() < sizes.len() {
            let one_more = sizes[sizes.len() - cache.len() - 1];
            assert!(cache.size_bytes() + one_more > 1024 * 1024);
        }
    }
    cache.clear();
    assert_eq!((cache.size_bytes(), cache.len()), (0, 0));
}

#[test]
fn hashes_stay_and_are_digits() {
    let mut known: Table<String> = Table::new();
    let first = FileWindows { file_size: 3, head: vec![1, 2, 3], tail: None };
    let second = FileWindows { file_size: 2, head: vec![9, 9], tail: None };
    let unread = get_content_hash(&mut known, "a", None);
    assert_eq!(unread, path_hash("a"));
    let h = get_content_hash(&mut known, "a", Some(&first));
    assert_eq!(h, file_content_hash(&first));
    assert!(h != unread);
    assert_eq!(get_content_hash(&mut known, "a", Some(&second)), h);
    assert_eq!(get_content_hash(&mut known, "a", None), h);
    assert_eq!(get_content_hash(&mut known, "b", None), path_hash("b"));
    for text in [&h, &unread] {
        assert_eq!(text.len(), 16);
        assert!(text.chars().all(|c| c.is_ascii_digit() || ('a'..='f').contains(&c)));
    }
}

#[test]
fn written_tiles_are_read_back() {
    let mut disk = std::collections::HashMap::new();
    let modes = [ResamplingMode::NearestNeighbor, ResamplingMode::Bicubic];
    let mut tiles = Vec::new();
    for hash in ["a", "a_0"] {
        for (z, x, y) in [(1, 1, 1), (1, 11, 1), (11, 1, 1), (1, 1, 11)] {
            for mode in modes {
                for webp in [false, true] {
                    tiles.push((hash, z, x, y, mode, webp));
                }
            }
        }
    }
    for (n, t) in tiles.iter().enumerate() {
        disk.insert(tile_cache_path(t.0, t.1, t.2, t.3, t.4, t.5), n);
    }
    for (n, t) in tiles.iter().enumerate() {
        assert_eq!(disk[&tile_cache_path(t.0, t.1, t.2, t.3, t.4, t.5)], n);
    }
}
