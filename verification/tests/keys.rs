use bencode_rs::keys::duplicate_key;

fn entries(keys: &[&str]) -> Vec<(Vec<u8>, u32)> {
    keys.iter().map(|k| (k.as_bytes().to_vec(), 0)).collect()
}

#[test]
fn distinct_keys_have_no_duplicate() {
    assert_eq!(duplicate_key(&entries(&[])), None);
    assert_eq!(duplicate_key(&entries(&["a"])), None);
    assert_eq!(duplicate_key(&entries(&["b", "a", "c", "", "aa"])), None);
}

#[test]
fn duplicate_key_is_found() {
    let found = duplicate_key(&entries(&["b", "a", "b"])).unwrap();
    assert!(found == 0 || found == 2);
    let found = duplicate_key(&entries(&["x", "x"])).unwrap();
    assert!(found < 2);
}

#[test]
fn least_duplicate_key_is_reported() {
    let keys = ["z", "m", "z", "c", "m", "a", "c", "b"];
    let all = entries(&keys);
    let found = duplicate_key(&all).unwrap();
    assert_eq!(all[found].0, b"c".to_vec());
}
