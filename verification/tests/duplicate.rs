use phash_rs::duplicate::cluster;
use phash_rs::{
    duplicates_only, group_duplicates, pixel_count, DuplicateGroup, HashError, ImageHash,
    ImageInfo,
};

fn item(path: &str, hex: &str, resolution: u64) -> ImageInfo {
    ImageInfo { path: path.to_string(), hash: ImageHash::from_hex(hex).unwrap(), resolution }
}

fn paths_of(groups: &[DuplicateGroup]) -> Vec<Vec<String>> {
    groups.iter().map(|g| g.paths.clone()).collect()
}

#[test]
fn test_empty_input() {
    let result = group_duplicates(Vec::new(), 10).unwrap();
    assert!(result.is_empty());
}

#[test]
fn empty_batch_for_any_threshold() {
    for threshold in [0, 1, 5, 64, u32::MAX] {
        assert!(group_duplicates(Vec::new(), threshold).unwrap().is_empty());
    }
}

#[test]
fn single_item_is_its_own_group() {
    let groups = group_duplicates(vec![item("only.png", "abcdef0123456789", 640 * 480)], 10).unwrap();
    assert_eq!(groups.len(), 1);
    assert_eq!(groups[0].paths, vec!["only.png"]);
    assert_eq!(groups[0].hash, "abcdef0123456789");
    assert_eq!(groups[0].best_path, "only.png");
}

#[test]
fn item_without_partner_stays_alone() {
    let images = vec![
        item("near1.png", "00000000", 1),
        item("far.png", "ffffffff", 2),
        item("near2.png", "00000001", 3),
    ];
    let groups = group_duplicates(images, 5).unwrap();
    assert_eq!(groups.len(), 2);
    assert_eq!(groups[0].paths, vec!["near1.png", "near2.png"]);
    assert_eq!(groups[1].paths, vec!["far.png"]);
    assert_eq!(groups[1].hash, "ffffffff");
    assert_eq!(groups[1].best_path, "far.png");
}

#[test]
fn chain_of_three_forms_one_group() {
    // distances: a-b 2, b-c 3, a-c 5
    let images = vec![
        item("c.png", "0000001f", 10),
        item("a.png", "00000000", 30),
        item("b.png", "00000003", 20),
    ];
    // a and c are not similar themselves
    assert_eq!(images[1].hash.distance(&images[2].hash), Ok(2));
    assert_eq!(images[2].hash.distance(&images[0].hash), Ok(3));
    assert_eq!(images[1].hash.distance(&images[0].hash), Ok(5));
    let groups = group_duplicates(images, 3).unwrap();
    assert_eq!(groups.len(), 1);
    assert_eq!(groups[0].paths, vec!["a.png", "b.png", "c.png"]);
    assert_eq!(groups[0].hash, "0000001f");
    assert_eq!(groups[0].best_path, "a.png");
}

#[test]
fn three_items_within_threshold_five() {
    let images = vec![
        item("B", "00000003", 200),
        item("C", "0000001f", 300),
        item("A", "00000000", 100),
    ];
    let groups = group_duplicates(images, 5).unwrap();
    assert_eq!(groups.len(), 1);
    assert_eq!(groups[0].paths, vec!["A", "B", "C"]);
    assert_eq!(groups[0].best_path, "C");
    assert_eq!(groups[0].hash, "00000003");
}

#[test]
fn threshold_is_inclusive() {
    let images = vec![item("a", "00", 1), item("b", "07", 1)];
    assert_eq!(group_duplicates(images.clone(), 2).unwrap().len(), 2);
    assert_eq!(group_duplicates(images.clone(), 3).unwrap().len(), 1);
    assert_eq!(group_duplicates(images, 4).unwrap().len(), 1);
}

#[test]
fn threshold_zero_groups_identical_fingerprints() {
    let images = vec![
        item("x", "abcd", 1),
        item("y", "abce", 1),
        item("z", "abcd", 1),
    ];
    let groups = group_duplicates(images, 0).unwrap();
    assert_eq!(paths_of(&groups), vec![vec!["x", "z"], vec!["y"]]);
}

#[test]
fn groups_come_in_the_order_of_their_first_items() {
    let images = vec![
        item("m", "ff00", 1),
        item("a", "00ff", 1),
        item("z", "ff01", 1),
        item("q", "0000", 1),
        item("b", "00fe", 1),
    ];
    let groups = group_duplicates(images, 1).unwrap();
    assert_eq!(paths_of(&groups), vec![vec!["m", "z"], vec!["a", "b"], vec!["q"]]);
    assert_eq!(groups[0].hash, "ff00");
    assert_eq!(groups[1].hash, "00ff");
    assert_eq!(groups[2].hash, "0000");
}

#[test]
fn members_are_sorted_lexicographically() {
    let images = vec![
        item("b/2.png", "00", 1),
        item("a/10.png", "00", 1),
        item("a/1.png", "00", 1),
        item("B.png", "00", 1),
        item("a", "00", 1),
        item("", "00", 1),
        item("\u{e9}.png", "00", 1),
        item("a/1.png", "00", 1),
    ];
    let groups = group_duplicates(images, 0).unwrap();
    assert_eq!(groups.len(), 1);
    assert_eq!(
        groups[0].paths,
        vec!["", "B.png", "a", "a/1.png", "a/1.png", "a/10.png", "b/2.png", "\u{e9}.png"]
    );
    let mut expected = groups[0].paths.clone();
    expected.sort();
    assert_eq!(groups[0].paths, expected);
}

#[test]
fn best_member_has_the_most_pixels() {
    let images = vec![
        item("small", "00", 10),
        item("large", "00", 1000),
        item("medium", "00", 100),
    ];
    let groups = group_duplicates(images, 0).unwrap();
    assert_eq!(groups[0].best_path, "large");
    assert_eq!(groups[0].hash, "00");
}

#[test]
fn best_member_is_the_first_among_equals() {
    let images = vec![
        item("z-first", "00", 500),
        item("a-second", "00", 500),
        item("small", "00", 1),
        item("m-third", "00", 500),
    ];
    let groups = group_duplicates(images, 0).unwrap();
    assert_eq!(groups[0].best_path, "z-first");
    let images = vec![item("p", "00", 0), item("q", "00", 0)];
    let groups = group_duplicates(images, 0).unwrap();
    assert_eq!(groups[0].best_path, "p");
}

#[test]
fn different_lengths_abort_the_batch() {
    let images = vec![item("a", "0000", 1), item("b", "0000", 1), item("c", "00", 1)];
    assert_eq!(group_duplicates(images, 64).err(), Some(HashError::LengthMismatch));
    let images = vec![item("c", "00", 1), item("a", "0000", 1)];
    assert_eq!(group_duplicates(images, 0).err(), Some(HashError::LengthMismatch));
    let images = vec![item("a", "", 1), item("b", "00", 1), item("c", "00", 1)];
    assert_eq!(group_duplicates(images, 0).err(), Some(HashError::LengthMismatch));
}

#[test]
fn reordering_keeps_the_groups() {
    let images = vec![
        item("e", "ff00", 5),
        item("b", "0001", 2),
        item("d", "ff01", 4),
        item("a", "0000", 1),
        item("c", "0003", 3),
        item("f", "0ff0", 6),
    ];
    let mut expected = paths_of(&group_duplicates(images.clone(), 1).unwrap());
    expected.sort();
    assert_eq!(expected, vec![vec!["a", "b", "c"], vec!["d", "e"], vec!["f"]]);
    let orders: [[usize; 6]; 5] = [
        [5, 4, 3, 2, 1, 0],
        [1, 0, 3, 2, 5, 4],
        [2, 4, 0, 5, 1, 3],
        [3, 5, 1, 0, 4, 2],
        [4, 2, 5, 1, 3, 0],
    ];
    for order in orders {
        let shuffled: Vec<ImageInfo> = order.iter().map(|&i| images[i].clone()).collect();
        let mut got = paths_of(&group_duplicates(shuffled, 1).unwrap());
        got.sort();
        assert_eq!(got, expected);
    }
}

#[test]
fn long_chain_is_one_group() {
    // each fingerprint differs from the next in one more bit
    let hexes = ["0000", "0001", "0003", "0007", "000f", "001f", "003f", "007f"];
    let images: Vec<ImageInfo> =
        hexes.iter().enumerate().map(|(i, h)| item(&format!("img{}", i), h, i as u64)).collect();
    assert_eq!(images[0].hash.distance(&images[7].hash), Ok(7));
    let groups = group_duplicates(images, 1).unwrap();
    assert_eq!(groups.len(), 1);
    assert_eq!(groups[0].paths.len(), 8);
    assert_eq!(groups[0].best_path, "img7");
    assert_eq!(groups[0].hash, "0000");
}

#[test]
fn every_item_is_in_exactly_one_group() {
    let hexes = ["00", "ff", "01", "fe", "0f", "f0", "03", "3c"];
    let images: Vec<ImageInfo> =
        hexes.iter().enumerate().map(|(i, h)| item(&format!("p{}", i), h, 1)).collect();
    for threshold in 0..=8 {
        let groups = group_duplicates(images.clone(), threshold).unwrap();
        let mut all: Vec<String> = groups.iter().flat_map(|g| g.paths.clone()).collect();
        all.sort();
        let expected: Vec<String> = (0..8).map(|i| format!("p{}", i)).collect();
        assert_eq!(all, expected);
        for group in &groups {
            assert!(!group.paths.is_empty());
            assert!(group.paths.contains(&group.best_path));
        }
    }
    assert_eq!(group_duplicates(images.clone(), 0).unwrap().len(), 8);
    assert_eq!(group_duplicates(images, 8).unwrap().len(), 1);
}

#[test]
fn cluster_joins_similar_items() {
    let images = vec![
        item("a", "00", 1),
        item("b", "ff", 1),
        item("c", "01", 1),
        item("d", "fe", 1),
    ];
    let mut sets = cluster(&images, 1).unwrap();
    assert_eq!(sets.len(), 4);
    assert_eq!(sets.find(0), sets.find(2));
    assert_eq!(sets.find(1), sets.find(3));
    assert_ne!(sets.find(0), sets.find(1));
    let uneven = vec![item("a", "00", 1), item("b", "0000", 1)];
    assert_eq!(cluster(&uneven, 1).err(), Some(HashError::LengthMismatch));
}

#[test]
fn duplicates_only_drops_single_members() {
    let images = vec![
        item("a", "00", 1),
        item("b", "ff", 1),
        item("c", "00", 1),
        item("d", "0f", 1),
        item("e", "0f", 1),
    ];
    let groups = group_duplicates(images, 0).unwrap();
    assert_eq!(groups.len(), 3);
    let kept = duplicates_only(groups);
    assert_eq!(paths_of(&kept), vec![vec!["a", "c"], vec!["d", "e"]]);
    assert!(duplicates_only(Vec::new()).is_empty());
}

#[test]
fn pixel_count_is_width_times_height() {
    assert_eq!(pixel_count(640, 480), 307_200);
    assert_eq!(pixel_count(0, 480), 0);
    assert_eq!(pixel_count(1, 1), 1);
    assert_eq!(pixel_count(u32::MAX, u32::MAX), 18_446_744_065_119_617_025);
}
