use linastore::catalog::StoreError;
use linastore::store::StoreManager;

fn generate_random_binary(size: usize) -> Vec<u8> {
    let mut data = vec![0u8; size];
    rand::fill(&mut data[..]);
    data
}

#[test]
fn test_data_flow_store() {
    let data = generate_random_binary(64 * 1024);
    let mut sm = StoreManager::new();
    let _ = sm.put_binary_data("random.txt", &data, true, true);
    let data_get = sm.get_binary_data("random.txt").unwrap();
    assert_eq!(data, data_get, "Data flow test failed");
}

#[test]
fn dedup_on_put_shares_one_source() {
    // Two names for identical content share one source; both read back.
    let r = generate_random_binary(64 * 1024);
    let mut sm = StoreManager::new();
    sm.put_binary_data("a.bin", &r, false, false).unwrap();
    sm.put_binary_data("b.bin", &r, false, false).unwrap();
    let names: Vec<String> =
        sm.list("*", 0, false, true).into_iter().map(|l| l.name).collect();
    assert!(names.contains(&"a.bin".to_string()));
    assert!(names.contains(&"b.bin".to_string()));
    let ids: Vec<String> =
        sm.list("*", 0, false, true).into_iter().map(|l| l.source_id).collect();
    assert_eq!(ids[0], ids[1], "both names must share one source");
    assert_eq!(sm.get_binary_data("a.bin").unwrap(), r);
    assert_eq!(sm.get_binary_data("b.bin").unwrap(), r);
}

#[test]
fn overwrite_in_place_with_cover() {
    let x = generate_random_binary(1000);
    let mut y = generate_random_binary(1000);
    y[0] = x[0].wrapping_add(1);
    let mut sm = StoreManager::new();
    sm.put_binary_data("a.bin", &x, false, false).unwrap();
    sm.put_binary_data("a.bin", &y, true, true).unwrap();
    let links = sm.list("a.bin", 0, false, true);
    assert_eq!(links.len(), 1);
    assert_eq!(sm.get_binary_data("a.bin").unwrap(), y);
}

#[test]
fn cover_on_shared_source_changes_both_names() {
    // The design accepts that covering one name of a shared source
    // mutates the content every sharing name sees.
    let r = generate_random_binary(500);
    let mut z = generate_random_binary(500);
    z[0] = r[0].wrapping_add(1);
    let mut sm = StoreManager::new();
    sm.put_binary_data("a.bin", &r, false, false).unwrap();
    sm.put_binary_data("b.bin", &r, false, false).unwrap();
    sm.put_binary_data("a.bin", &z, true, false).unwrap();
    assert_eq!(sm.get_binary_data("a.bin").unwrap(), z);
    assert_eq!(sm.get_binary_data("b.bin").unwrap(), z);
}

#[test]
fn re_put_without_cover_separates_sources() {
    let r = generate_random_binary(500);
    let mut z = generate_random_binary(500);
    z[0] = r[0].wrapping_add(1);
    let mut sm = StoreManager::new();
    sm.put_binary_data("a.bin", &r, false, false).unwrap();
    sm.put_binary_data("b.bin", &r, false, false).unwrap();
    sm.put_binary_data("a.bin", &z, false, false).unwrap();
    assert_eq!(sm.get_binary_data("a.bin").unwrap(), z);
    assert_eq!(sm.get_binary_data("b.bin").unwrap(), r);
    let links = sm.list("*", 0, false, true);
    let a = links.iter().find(|l| l.name == "a.bin").unwrap();
    let b = links.iter().find(|l| l.name == "b.bin").unwrap();
    assert_ne!(a.source_id, b.source_id);
}

#[test]
fn identical_re_put_is_a_no_op() {
    let r = generate_random_binary(500);
    let mut sm = StoreManager::new();
    sm.put_binary_data("a.bin", &r, false, false).unwrap();
    let before: Vec<String> =
        sm.list("*", 0, false, true).into_iter().map(|l| l.source_id).collect();
    sm.put_binary_data("a.bin", &r, false, false).unwrap();
    let after: Vec<String> =
        sm.list("*", 0, false, true).into_iter().map(|l| l.source_id).collect();
    assert_eq!(before, after);
}

#[test]
fn delete_decrements_then_reclaims() {
    let r = generate_random_binary(2048);
    let mut sm = StoreManager::new();
    sm.put_binary_data("a.bin", &r, false, false).unwrap();
    sm.put_binary_data("b.bin", &r, false, false).unwrap();
    sm.delete("a.bin", false).unwrap();
    assert_eq!(sm.get_binary_data("a.bin").unwrap_err(), StoreError::NotFound);
    assert_eq!(sm.get_binary_data("b.bin").unwrap(), r);
    sm.delete("b.bin", false).unwrap();
    assert_eq!(sm.get_binary_data("b.bin").unwrap_err(), StoreError::NotFound);
    assert!(sm.list("*", 0, false, true).is_empty());
}

#[test]
fn delete_with_wildcard_pattern() {
    let mut sm = StoreManager::new();
    sm.put_binary_data("one.txt", &vec![1u8], false, false).unwrap();
    sm.put_binary_data("two.txt", &vec![2u8], false, false).unwrap();
    sm.put_binary_data("three.log", &vec![3u8], false, false).unwrap();
    sm.delete("*.txt", true).unwrap();
    let names: Vec<String> =
        sm.list("*", 0, false, true).into_iter().map(|l| l.name).collect();
    assert_eq!(names, vec!["three.log".to_string()]);
}

#[test]
fn empty_name_and_pattern_are_invalid() {
    let mut sm = StoreManager::new();
    assert_eq!(
        sm.put_binary_data("", &vec![1u8], false, false).unwrap_err(),
        StoreError::InvalidName
    );
    assert_eq!(sm.get_binary_data("").unwrap_err(), StoreError::InvalidName);
    assert_eq!(sm.delete("", false).unwrap_err(), StoreError::InvalidName);
}

#[test]
fn missing_name_is_not_found() {
    let sm = StoreManager::new();
    assert_eq!(sm.get_binary_data("nope.bin").unwrap_err(), StoreError::NotFound);
}

#[test]
fn list_by_extension_and_bound() {
    let mut sm = StoreManager::new();
    sm.put_binary_data("a.txt", &vec![1u8], false, false).unwrap();
    sm.put_binary_data("b.txt", &vec![2u8], false, false).unwrap();
    sm.put_binary_data("c.jpg", &vec![3u8], false, false).unwrap();
    let txt = sm.list("txt", 0, true, true);
    assert_eq!(txt.len(), 2);
    assert!(txt.iter().all(|l| l.ext == "txt"));
    let bounded = sm.list("*", 2, false, true);
    assert_eq!(bounded.len(), 2);
    let exact = sm.list("c.jpg", 0, false, false);
    assert_eq!(exact.len(), 1);
    assert_eq!(exact[0].name, "c.jpg");
    let fuzzy = sm.list("*.txt", 0, false, true);
    assert_eq!(fuzzy.len(), 2);
}

#[test]
fn compressed_put_reads_back() {
    let mut sm = StoreManager::new();
    let data = vec![42u8; 300_000];
    sm.put_binary_data("big.bin", &data, false, true).unwrap();
    assert_eq!(sm.get_binary_data("big.bin").unwrap(), data);
}

#[test]
fn wildcard_match_folds_ascii_case() {
    let mut store = StoreManager::new();
    store.put_binary_data("Alpha.TXT", &vec![1u8, 2, 3], false, false).unwrap();
    // LIKE comparisons fold ASCII case, so a lower-case wildcard
    // pattern finds the mixed-case name; an exact lookup does not.
    assert_eq!(store.list("alpha*", 0, false, true).len(), 1);
    assert_eq!(store.list("alpha.txt", 0, false, true).len(), 0);
    store.delete("ALPHA.*", true).unwrap();
    assert_eq!(store.list("*", 0, false, true).len(), 0);
}

#[test]
fn blob_rel_path_fans_out() {
    assert_eq!(
        linastore::store::blob_rel_path("20240101010101abcdefgh"),
        "2024/01/20240101010101abcdefgh"
    );
    assert_eq!(linastore::store::blob_rel_path("abcdef"), "abcd/ef/abcdef");
}

#[test]
fn source_ids_are_timestamp_then_base62() {
    let mut store = StoreManager::new();
    store.put_binary_data("a.txt", &vec![9u8, 8, 7], false, false).unwrap();
    assert_eq!(store.source_count(), 1);
    let row = store.source_row(0);
    assert_eq!(row.id.chars().count(), 22);
    assert!(row.id.chars().take(14).all(|c| c.is_ascii_digit()));
    assert!(row.id.chars().skip(14).all(|c| c.is_ascii_alphanumeric()));
    // The raw put's blob holds the content unencoded.
    assert_eq!(store.blob_bytes(0), &vec![9u8, 8, 7]);
}
