use chainmap::ChainMap;
use std::collections::HashMap;

#[test]
fn test_chainmap_insert() {
    {
        let m = HashMap::<i32, String>::new();
        let mut cmap = ChainMap::new(vec![m]);
        assert_eq!(cmap.insert(1, "one".to_string()), None);
    }

    {
        let mut m = HashMap::<i32, String>::new();
        m.insert(1, "one".to_string());

        let mut cmap = ChainMap::new(vec![m]);
        assert_eq!(cmap.insert(1, "two".to_string()), Some("one".to_string()));
    }
}

#[test]
fn test_chainmap_get() {
    let mut m = HashMap::<i32, String>::new();
    m.insert(1, "one".to_string());
    m.insert(2, "two".to_string());
    m.insert(3, "three".to_string());

    let cmap = ChainMap::new(vec![m]);

    assert_eq!(cmap.get(&3), Some(&"three".to_string()));
    assert_eq!(cmap.get(&2), Some(&"two".to_string()));
    assert_eq!(cmap.get(&1), Some(&"one".to_string()));

    assert_eq!(cmap.get(&5), None);
}

#[test]
fn test_chainmap_parents() {
    let mut m1 = HashMap::<i32, String>::new();
    m1.insert(1, "one".to_string());
    m1.insert(2, "two".to_string());
    m1.insert(3, "three".to_string());

    let mut m2 = HashMap::<i32, String>::new();
    m2.insert(11, "eleven".to_string());
    m2.insert(22, "twenty two".to_string());
    m2.insert(33, "thirty three".to_string());

    let cmap = ChainMap::new(vec![m1, m2]);

    assert!(cmap.parents().is_some());

    let cmap2 = cmap.parents().unwrap();
    assert!(cmap2.parents().is_some());

    assert_eq!(cmap2.get(&1), Some(&"one".to_string()));
    assert_eq!(cmap2.get(&2), Some(&"two".to_string()));
    assert_eq!(cmap2.get(&3), Some(&"three".to_string()));
    assert_eq!(cmap2.get(&22), None);

    let cmap3 = cmap2.parents().unwrap();
    assert!(cmap3.parents().is_none());
}

#[test]
fn test_chainmap_children() {
    let mut m1 = HashMap::<i32, String>::new();
    m1.insert(1, "one".to_string());
    m1.insert(2, "two".to_string());
    m1.insert(3, "three".to_string());

    let mut m2 = HashMap::<i32, String>::new();
    m2.insert(11, "eleven".to_string());
    m2.insert(22, "twenty two".to_string());
    m2.insert(33, "thirty three".to_string());

    let cmap = ChainMap::new(vec![m1, m2]);

    assert!(cmap.children().is_some());

    let cmap2 = cmap.children().unwrap();
    assert!(cmap2.children().is_some());

    assert_eq!(cmap2.get(&11), Some(&"eleven".to_string()));
    assert_eq!(cmap2.get(&22), Some(&"twenty two".to_string()));
    assert_eq!(cmap2.get(&33), Some(&"thirty three".to_string()));
    assert_eq!(cmap2.get(&1), None);
    assert_eq!(cmap2.get(&2), None);

    let cmap3 = cmap2.children().unwrap();
    assert!(cmap3.children().is_none());
}

#[test]
fn test_chainmap_empty() {
    // Non-empty one
    {
        let mut m: HashMap<i32, String> = HashMap::new();
        m.insert(3, "three".to_string());

        let cmap = ChainMap::new(vec![m]);
        assert!(!cmap.is_empty());
    }

    // Empty one
    {
        let cmap = ChainMap::new(vec![HashMap::<i32, String>::new()]);
        assert!(cmap.is_empty());
    }
}

#[test]
fn test_chainmap_add_map() {
    let mut m: HashMap<i32, String> = HashMap::new();
    m.insert(3, "three".to_string());

    let mut cmap: ChainMap<i32, String> = ChainMap::empty();
    assert_eq!(cmap.get(&3), None);

    cmap.add_map(m);
    assert_eq!(cmap.get(&3), Some(&"three".to_string()));
}

#[test]
fn test_chainmap_to_map() {
    let mut m1 = HashMap::<i32, String>::new();
    m1.insert(1, "one".to_string());
    m1.insert(2, "two".to_string());
    m1.insert(3, "three".to_string());

    let mut m2 = HashMap::<i32, String>::new();
    m2.insert(11, "eleven".to_string());
    m2.insert(22, "twenty two".to_string());
    m2.insert(33, "thirty three".to_string());

    let cmap = ChainMap::new(vec![m1, m2]);

    let combined_map = cmap.to_map();

    assert_eq!(combined_map.get(&1), Some(&"one".to_string()));
    assert_eq!(combined_map.get(&2), Some(&"two".to_string()));
    assert_eq!(combined_map.get(&3), Some(&"three".to_string()));
    assert_eq!(combined_map.get(&11), Some(&"eleven".to_string()));
    assert_eq!(combined_map.get(&22), Some(&"twenty two".to_string()));
    assert_eq!(combined_map.get(&33), Some(&"thirty three".to_string()));
}
